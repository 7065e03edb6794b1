//! Loop analysis on the graph: which nodes of a loop body do not depend on the
//! iteration, and which counting loops are small enough to unroll.

use vstd::prelude::*;

use crate::arith::{int_of, IntTy};
use crate::fx::IdSet;
use crate::ir::compute_fns::{
    is_control_flow_compute_fn, is_control_flow_id, is_launch_kind, launches, pure_compute_fn_set,
    pure_ids, CF_BREAK, CF_CALL_LAUNCH, CF_CONTINUE, CF_RANGE, CF_RANGE_INCLUSIVE, CF_RETURN,
    CF_THROW_WRAP_ERR,
};
use crate::ir::graph::{in_range, DataFlowGraph};
use crate::ir::types::{ConstValue, LoopKind, NodeId, NodeKind, SubGraph, SubGraphId};

verus! {

/// Most nodes of a body that is unrolled.
pub const MAX_UNROLL_BODY_NODES: u32 = 32;

/// Most iterations that are unrolled.
pub const MAX_UNROLL: u32 = 8;

/// Unrolling of a loop.
#[derive(Clone, Copy, Debug, PartialEq, Eq, Structural)]
pub struct UnrollInfo {
    /// Number of iterations.
    pub trip_count: u32,
    /// Node of the body that holds the loop variable.
    pub loop_var_node: NodeId,
    /// First value of the loop variable.
    pub start_value: i128,
    /// Step of the loop variable.
    pub step: i128,
    /// Body subgraph.
    pub body_sg: SubGraphId,
    /// The constant that the range starts at; its type is that of the loop
    /// variable.
    pub start_const: ConstValue,
}

/// The invariant nodes of one loop body.
#[derive(Debug)]
pub struct BodyInvariants {
    pub body_sg: SubGraphId,
    pub nodes: Vec<NodeId>,
}

/// Report of the loop analysis, in the order of the loop subgraphs.
#[derive(Debug)]
pub struct LoopAnalysisReport {
    /// Bodies that have invariant nodes.
    pub invariants: Vec<BodyInvariants>,
    /// Loops that can be unrolled.
    pub unrollable: Vec<(SubGraphId, UnrollInfo)>,
}

// ---- invariants ------------------------------------------------------------

/// Whether the node lies in no loop subgraph.
pub open spec fn at_function_level(g: &DataFlowGraph, x: NodeId) -> bool {
    forall|s: int| #![trigger g.subgraphs@[s]]
        0 <= s < g.subgraphs@.len() && g.subgraphs@[s].loop_kind != LoopKind::NotLoop ==> !in_range(
            g.subgraphs@[s].node_range,
            x.0 as int,
        )
}

/// Whether a node of the body writes back to `x`.
pub open spec fn modified_in(g: &DataFlowGraph, body: SubGraph, x: NodeId) -> bool {
    exists|i: int|
        in_range(body.node_range, i) && i < g.meta@.len() && (
        #[trigger] g.meta@[i]).writeback_target == Some(x)
}

/// Whether `x` drives the loop.
pub open spec fn drives_loop(sg: SubGraph, x: NodeId) -> bool {
    sg.cond_node == Some(x) || sg.iter_next_node == Some(x)
}

/// Whether an input does not change from iteration to iteration, given the
/// invariants found so far.
pub open spec fn steady_input(
    g: &DataFlowGraph,
    sg: SubGraph,
    body: SubGraph,
    found: Seq<NodeId>,
    x: NodeId,
) -> bool {
    &&& !drives_loop(sg, x)
    &&& !modified_in(g, body, x)
    &&& at_function_level(g, x) || found.contains(x)
}

/// Whether node `i` of the body is found invariant next.
pub open spec fn next_invariant(
    g: &DataFlowGraph,
    sg: SubGraph,
    body: SubGraph,
    pure_set: Set<u32>,
    found: Seq<NodeId>,
    i: int,
) -> bool {
    &&& !found.contains(NodeId(i as u32))
    &&& !launches(g.nodes@[i].kind)
    &&& pure_set.contains(g.nodes@[i].compute_fn.0)
    &&& forall|j: int| #![trigger g.inputs_of(i)[j]]
        0 <= j < g.inputs_of(i).len() ==> steady_input(g, sg, body, found, g.inputs_of(i)[j])
}

/// The invariants after nodes [start, hi) of the body have been looked at.
pub open spec fn invariant_sweep(
    g: &DataFlowGraph,
    sg: SubGraph,
    body: SubGraph,
    pure_set: Set<u32>,
    found: Seq<NodeId>,
    hi: int,
) -> Seq<NodeId>
    decreases hi - body.node_range.0.0,
{
    if hi <= body.node_range.0.0 {
        found
    } else {
        let prev = invariant_sweep(g, sg, body, pure_set, found, hi - 1);
        if next_invariant(g, sg, body, pure_set, prev, hi - 1) {
            prev.push(NodeId((hi - 1) as u32))
        } else {
            prev
        }
    }
}

/// The invariants after `k` sweeps over the body.
pub open spec fn invariant_rounds(
    g: &DataFlowGraph,
    sg: SubGraph,
    body: SubGraph,
    pure_set: Set<u32>,
    k: nat,
) -> Seq<NodeId>
    decreases k,
{
    if k == 0 {
        Seq::empty()
    } else {
        invariant_sweep(
            g,
            sg,
            body,
            pure_set,
            invariant_rounds(g, sg, body, pure_set, (k - 1) as nat),
            body.node_range.1.0 as int,
        )
    }
}

/// The list is what sweeps over the body find, and another sweep finds
/// nothing more.
pub open spec fn invariants_are(
    g: &DataFlowGraph,
    sg: SubGraph,
    body: SubGraph,
    pure_set: Set<u32>,
    list: Seq<NodeId>,
) -> bool {
    &&& exists|k: nat| list == #[trigger] invariant_rounds(g, sg, body, pure_set, k)
    &&& invariant_sweep(g, sg, body, pure_set, list, body.node_range.1.0 as int) == list
}

/// The invariant nodes of a body, in the order in which they are found.
pub open spec fn invariants_of(
    g: &DataFlowGraph,
    sg: SubGraph,
    body: SubGraph,
    pure_set: Set<u32>,
) -> Seq<NodeId> {
    choose|list: Seq<NodeId>| invariants_are(g, sg, body, pure_set, list)
}

proof fn lemma_rounds_stay(
    g: &DataFlowGraph,
    sg: SubGraph,
    body: SubGraph,
    pure_set: Set<u32>,
    k: nat,
    l: nat,
)
    requires
        k <= l,
        invariant_sweep(
            g,
            sg,
            body,
            pure_set,
            invariant_rounds(g, sg, body, pure_set, k),
            body.node_range.1.0 as int,
        ) == invariant_rounds(g, sg, body, pure_set, k),
    ensures
        invariant_rounds(g, sg, body, pure_set, l) == invariant_rounds(g, sg, body, pure_set, k),
    decreases l,
{
    if k < l {
        lemma_rounds_stay(g, sg, body, pure_set, k, (l - 1) as nat);
    }
}

proof fn lemma_invariants_unique(
    g: &DataFlowGraph,
    sg: SubGraph,
    body: SubGraph,
    pure_set: Set<u32>,
    list: Seq<NodeId>,
)
    requires
        invariants_are(g, sg, body, pure_set, list),
    ensures
        invariants_of(g, sg, body, pure_set) == list,
{
    let other = invariants_of(g, sg, body, pure_set);
    assert(invariants_are(g, sg, body, pure_set, other));
    let k = choose|k: nat| list == #[trigger] invariant_rounds(g, sg, body, pure_set, k);
    let l = choose|l: nat| other == #[trigger] invariant_rounds(g, sg, body, pure_set, l);
    if k <= l {
        lemma_rounds_stay(g, sg, body, pure_set, k, l);
    } else {
        lemma_rounds_stay(g, sg, body, pure_set, l, k);
    }
}

/// A sweep only appends.
proof fn lemma_sweep_extends(
    g: &DataFlowGraph,
    sg: SubGraph,
    body: SubGraph,
    pure_set: Set<u32>,
    found: Seq<NodeId>,
    hi: int,
)
    ensures
        found.len() <= invariant_sweep(g, sg, body, pure_set, found, hi).len(),
        invariant_sweep(g, sg, body, pure_set, found, hi).take(found.len() as int) == found,
    decreases hi - body.node_range.0.0,
{
    if hi > body.node_range.0.0 {
        lemma_sweep_extends(g, sg, body, pure_set, found, hi - 1);
        let prev = invariant_sweep(g, sg, body, pure_set, found, hi - 1);
        let next = invariant_sweep(g, sg, body, pure_set, found, hi);
        assert(next.take(found.len() as int) =~= prev.take(found.len() as int));
    } else {
        assert(found.take(found.len() as int) =~= found);
    }
}

/// The list holds nodes of the body, each once, and each with steady inputs
/// given those before it.
pub open spec fn invariants_sound(
    g: &DataFlowGraph,
    sg: SubGraph,
    body: SubGraph,
    pure_set: Set<u32>,
    list: Seq<NodeId>,
) -> bool {
    &&& list.no_duplicates()
    &&& forall|k: int|
        0 <= k < list.len() ==> in_range(body.node_range, (#[trigger] list[k]).0 as int)
            && next_invariant(g, sg, body, pure_set, list.take(k), list[k].0 as int)
}

proof fn lemma_sound_push(
    g: &DataFlowGraph,
    sg: SubGraph,
    body: SubGraph,
    pure_set: Set<u32>,
    list: Seq<NodeId>,
    i: int,
)
    requires
        invariants_sound(g, sg, body, pure_set, list),
        in_range(body.node_range, i),
        next_invariant(g, sg, body, pure_set, list, i),
    ensures
        invariants_sound(g, sg, body, pure_set, list.push(NodeId(i as u32))),
{
    let next = list.push(NodeId(i as u32));
    assert forall|a: int, b: int| 0 <= a < next.len() && 0 <= b < next.len() && a != b implies next[a]
        != next[b] by {
        if a == list.len() {
            assert(list.contains(list[b]));
        } else if b == list.len() {
            assert(list.contains(list[a]));
        }
    }
    assert forall|k: int| 0 <= k < next.len() implies in_range(
        body.node_range,
        (#[trigger] next[k]).0 as int,
    ) && next_invariant(g, sg, body, pure_set, next.take(k), next[k].0 as int) by {
        assert(next.take(k) =~= list.take(k));
        if k == list.len() {
            assert(list.take(k) =~= list);
        } else {
            assert(list[k] == next[k]);
        }
    }
}

fn node_at_function_level(graph: &DataFlowGraph, x: NodeId) -> (r: bool)
    ensures
        r == at_function_level(graph, x),
{
    let mut s: usize = 0;
    while s < graph.subgraphs.len()
        invariant
            s <= graph.subgraphs@.len(),
            forall|k: int| #![trigger graph.subgraphs@[k]]
                0 <= k < s && graph.subgraphs@[k].loop_kind != LoopKind::NotLoop ==> !in_range(
                    graph.subgraphs@[k].node_range,
                    x.0 as int,
                ),
        decreases graph.subgraphs@.len() - s,
    {
        let sg = &graph.subgraphs[s];
        if sg.loop_kind != LoopKind::NotLoop && sg.node_range.0.0 <= x.0 && x.0 < sg.node_range.1.0 {
            assert(in_range(graph.subgraphs@[s as int].node_range, x.0 as int));
            return false;
        }
        s = s + 1;
    }
    true
}

/// The nodes that nodes of the body write back to.
fn collect_modified(graph: &DataFlowGraph, body_sg: usize) -> (set: IdSet)
    requires
        graph.meta@.len() == graph.nodes@.len(),
        body_sg < graph.subgraphs@.len(),
        graph.subgraphs@[body_sg as int].node_range.1.0 <= graph.nodes@.len(),
    ensures
        forall|x: u32| #[trigger]
            set@.contains(x) <==> modified_in(
                graph,
                graph.subgraphs@[body_sg as int],
                NodeId(x),
            ),
{
    let ghost body = graph.subgraphs@[body_sg as int];
    let range = graph.subgraphs[body_sg].node_range;
    let mut set = IdSet::new();
    let mut i: u32 = range.0.0;
    while i < range.1.0
        invariant
            graph.meta@.len() == graph.nodes@.len(),
            range == body.node_range,
            range.1.0 <= graph.nodes@.len(),
            range.0.0 <= i,
            i <= range.1.0 || i == range.0.0,
            forall|x: u32| #[trigger]
                set@.contains(x) <==> exists|k: int|
                    range.0.0 <= k < i && k < graph.meta@.len() && (
                    #[trigger] graph.meta@[k]).writeback_target == Some(NodeId(x)),
        decreases range.1.0 - i,
    {
        let ghost was = set@;
        if let Some(t) = graph.meta[i as usize].writeback_target {
            set.insert(t.0);
        }
        assert forall|x: u32| #[trigger] set@.contains(x) <==> exists|k: int|
            range.0.0 <= k < i + 1 && k < graph.meta@.len() && (
            #[trigger] graph.meta@[k]).writeback_target == Some(NodeId(x)) by {
            if was.contains(x) {
                let k = choose|k: int|
                    range.0.0 <= k < i && k < graph.meta@.len() && (
                    #[trigger] graph.meta@[k]).writeback_target == Some(NodeId(x));
                assert(range.0.0 <= k < i + 1);
            }
            if set@.contains(x) && !was.contains(x) {
                assert(graph.meta@[i as int].writeback_target == Some(NodeId(x)));
            }
        }
        i = i + 1;
    }
    assert forall|x: u32| #[trigger] set@.contains(x) <==> modified_in(graph, body, NodeId(x)) by {
        if set@.contains(x) {
            let k = choose|k: int|
                range.0.0 <= k < i && k < graph.meta@.len() && (
                #[trigger] graph.meta@[k]).writeback_target == Some(NodeId(x));
            assert(in_range(body.node_range, k));
        }
    }
    set
}

/// Whether the node is found invariant next.
fn is_next_invariant(
    graph: &DataFlowGraph,
    loop_sg: usize,
    body_sg: usize,
    pure_set: &IdSet,
    modified: &IdSet,
    found_set: &IdSet,
    Ghost(found): Ghost<Seq<NodeId>>,
    i: usize,
) -> (r: bool)
    requires
        graph.wf(),
        i < graph.nodes@.len(),
        loop_sg < graph.subgraphs@.len(),
        body_sg < graph.subgraphs@.len(),
        forall|x: u32| #[trigger]
            modified@.contains(x) <==> modified_in(
                graph,
                graph.subgraphs@[body_sg as int],
                NodeId(x),
            ),
        forall|x: u32| #[trigger] found_set@.contains(x) <==> found.contains(NodeId(x)),
    ensures
        r == next_invariant(
            graph,
            graph.subgraphs@[loop_sg as int],
            graph.subgraphs@[body_sg as int],
            pure_set@,
            found,
            i as int,
        ),
{
    let ghost sg = graph.subgraphs@[loop_sg as int];
    let ghost body = graph.subgraphs@[body_sg as int];
    if found_set.contains(i as u32) {
        return false;
    }
    let node = graph.nodes[i];
    if is_launch_kind(node.kind) || !pure_set.contains(node.compute_fn.0) {
        return false;
    }
    let cond = graph.subgraphs[loop_sg].cond_node;
    let iter = graph.subgraphs[loop_sg].iter_next_node;
    let inputs = graph.inputs(i);
    let mut j: usize = 0;
    while j < inputs.len()
        invariant
            inputs@ == graph.inputs_of(i as int),
            sg == graph.subgraphs@[loop_sg as int],
            body == graph.subgraphs@[body_sg as int],
            cond == sg.cond_node,
            iter == sg.iter_next_node,
            forall|x: u32| #[trigger]
                modified@.contains(x) <==> modified_in(graph, body, NodeId(x)),
            forall|x: u32| #[trigger] found_set@.contains(x) <==> found.contains(NodeId(x)),
            j <= inputs@.len(),
            forall|k: int|
                0 <= k < j ==> steady_input(
                    graph,
                    sg,
                    body,
                    found,
                    #[trigger] graph.inputs_of(i as int)[k],
                ),
        decreases inputs@.len() - j,
    {
        let x = inputs[j];
        assert(NodeId(x.0) == x);
        let drives = (match cond {
            Some(c) => c == x,
            None => false,
        }) || (match iter {
            Some(n) => n == x,
            None => false,
        });
        let steady = !drives && !modified.contains(x.0) && (node_at_function_level(graph, x)
            || found_set.contains(x.0));
        assert(steady == steady_input(graph, sg, body, found, graph.inputs_of(i as int)[j as int]));
        if !steady {
            return false;
        }
        j = j + 1;
    }
    true
}

/// Finds the invariant nodes of a loop body.
pub fn find_invariants(graph: &DataFlowGraph, loop_sg: SubGraphId, body_sg: SubGraphId, pure_set: &IdSet) -> (list:
    Vec<NodeId>)
    requires
        graph.wf(),
        loop_sg.0 < graph.subgraphs@.len(),
        body_sg.0 < graph.subgraphs@.len(),
        graph.subgraphs@[body_sg.0 as int].node_range.1.0 <= graph.nodes@.len(),
    ensures
        list@ == invariants_of(
            graph,
            graph.subgraphs@[loop_sg.0 as int],
            graph.subgraphs@[body_sg.0 as int],
            pure_set@,
        ),
        invariants_sound(
            graph,
            graph.subgraphs@[loop_sg.0 as int],
            graph.subgraphs@[body_sg.0 as int],
            pure_set@,
            list@,
        ),
        invariants_are(
            graph,
            graph.subgraphs@[loop_sg.0 as int],
            graph.subgraphs@[body_sg.0 as int],
            pure_set@,
            list@,
        ),
{
    let ghost sg = graph.subgraphs@[loop_sg.0 as int];
    let ghost body = graph.subgraphs@[body_sg.0 as int];
    let ghost pure = pure_set@;
    let range = graph.subgraphs[body_sg.0 as usize].node_range;
    let modified = collect_modified(graph, body_sg.0 as usize);
    let mut list: Vec<NodeId> = Vec::new();
    let mut found = IdSet::new();
    let ghost mut rounds: nat = 0;
    let mut changed = true;
    proof {
        assert(list@ =~= invariant_rounds(graph, sg, body, pure, 0));
    }
    while changed
        invariant
            graph.wf(),
            loop_sg.0 < graph.subgraphs@.len(),
            body_sg.0 < graph.subgraphs@.len(),
            sg == graph.subgraphs@[loop_sg.0 as int],
            body == graph.subgraphs@[body_sg.0 as int],
            pure == pure_set@,
            range == body.node_range,
            range.1.0 <= graph.nodes@.len(),
            forall|x: u32| #[trigger]
                modified@.contains(x) <==> modified_in(graph, body, NodeId(x)),
            forall|x: u32| #[trigger] found@.contains(x) <==> list@.contains(NodeId(x)),
            list@ == invariant_rounds(graph, sg, body, pure, rounds),
            invariants_sound(graph, sg, body, pure, list@),
            !changed ==> invariant_sweep(graph, sg, body, pure, list@, range.1.0 as int) == list@,
            list@.len() <= graph.nodes@.len(),
        decreases graph.nodes@.len() - list@.len(), if changed { 1int } else { 0int },
    {
        changed = false;
        let ghost before = list@;
        let mut i: u32 = range.0.0;
        while i < range.1.0
            invariant
                graph.wf(),
                loop_sg.0 < graph.subgraphs@.len(),
                body_sg.0 < graph.subgraphs@.len(),
                sg == graph.subgraphs@[loop_sg.0 as int],
                body == graph.subgraphs@[body_sg.0 as int],
                pure == pure_set@,
                range == body.node_range,
                range.1.0 <= graph.nodes@.len(),
                range.0.0 <= i,
                i <= range.1.0 || i == range.0.0,
                forall|x: u32| #[trigger]
                    modified@.contains(x) <==> modified_in(graph, body, NodeId(x)),
                forall|x: u32| #[trigger] found@.contains(x) <==> list@.contains(NodeId(x)),
                list@ == invariant_sweep(graph, sg, body, pure, before, i as int),
                invariants_sound(graph, sg, body, pure, list@),
                before.len() <= list@.len(),
                changed <==> list@.len() > before.len(),
            decreases range.1.0 - i,
        {
            if is_next_invariant(
                graph,
                loop_sg.0 as usize,
                body_sg.0 as usize,
                pure_set,
                &modified,
                &found,
                Ghost(list@),
                i as usize,
            ) {
                let ghost was = list@;
                proof {
                    lemma_sound_push(graph, sg, body, pure, was, i as int);
                }
                found.insert(i);
                list.push(NodeId(i));
                changed = true;
                assert forall|x: u32| #[trigger] found@.contains(x) <==> list@.contains(
                    NodeId(x),
                ) by {
                    assert(list@[was.len() as int] == NodeId(i));
                    if was.contains(NodeId(x)) {
                        let k = choose|k: int|
                            0 <= k < was.len() && #[trigger] was[k] == NodeId(x);
                        assert(list@[k] == NodeId(x));
                    }
                    if list@.contains(NodeId(x)) {
                        let k = choose|k: int|
                            0 <= k < list@.len() && #[trigger] list@[k] == NodeId(x);
                        if k < was.len() {
                            assert(was[k] == NodeId(x));
                        }
                    }
                }
            }
            i = i + 1;
        }
        proof {
            assert(list@ == invariant_sweep(graph, sg, body, pure, before, range.1.0 as int)) by {
                if range.1.0 < range.0.0 {
                    assert(invariant_sweep(graph, sg, body, pure, before, range.1.0 as int)
                        == before);
                }
            }
            rounds = rounds + 1;
            if !changed {
                lemma_sweep_extends(graph, sg, body, pure, before, range.1.0 as int);
                assert(list@ =~= before);
            }
            lemma_sound_len(graph, sg, body, pure, list@, graph.nodes@.len() as int);
        }
    }
    proof {
        lemma_invariants_unique(graph, sg, body, pure, list@);
    }
    list
}

proof fn lemma_sound_len(
    g: &DataFlowGraph,
    sg: SubGraph,
    body: SubGraph,
    pure_set: Set<u32>,
    list: Seq<NodeId>,
    n: int,
)
    requires
        invariants_sound(g, sg, body, pure_set, list),
        body.node_range.1.0 <= n,
    ensures
        list.len() <= n,
{
    let ids = Seq::new(list.len(), |k: int| list[k].0 as int);
    assert forall|a: int, b: int| 0 <= a < ids.len() && 0 <= b < ids.len() && a != b implies ids[a]
        != ids[b] by {
        assert(list[a] != list[b]);
    }
    ids.unique_seq_to_set();
    let all = vstd::set_lib::set_int_range(0, n);
    vstd::set_lib::lemma_int_range(0, n);
    assert(ids.to_set().subset_of(all)) by {
        assert forall|x: int| ids.to_set().contains(x) implies all.contains(x) by {
            let k = choose|k: int| 0 <= k < ids.len() && ids[k] == x;
            assert(in_range(body.node_range, list[k].0 as int));
        }
    }
    vstd::set_lib::lemma_len_subset(ids.to_set(), all);
}

// ---- unrolling -------------------------------------------------------------

/// The value of an integer constant; one of `u128` beyond `i128` wraps.
pub open spec fn signed_of(cv: ConstValue) -> Option<int> {
    match int_of(cv) {
        Some((ty, v)) => Some(IntTy::I128.wrap(v)),
        None => None,
    }
}

/// The first node of [lo, hi) that constructs a range.
pub open spec fn first_range(g: &DataFlowGraph, lo: int, hi: int) -> Option<int>
    decreases hi - lo,
{
    if lo >= hi {
        None
    } else if g.nodes@[lo].compute_fn.0 == CF_RANGE || g.nodes@[lo].compute_fn.0
        == CF_RANGE_INCLUSIVE {
        Some(lo)
    } else {
        first_range(g, lo + 1, hi)
    }
}

/// Whether a node of [lo, hi) raises a control signal.
pub open spec fn has_signal(g: &DataFlowGraph, lo: int, hi: int) -> bool {
    exists|i: int|
        lo <= i < hi && is_control_flow_id((#[trigger] g.nodes@[i]).compute_fn.0)
}

/// The constant value of a node, if it exists and has one.
pub open spec fn const_at(g: &DataFlowGraph, x: NodeId) -> Option<ConstValue> {
    if x.0 < g.meta@.len() {
        g.meta@[x.0 as int].const_value
    } else {
        None
    }
}

/// Number of iterations over a range: none where it is empty.
pub open spec fn trips(start: int, end: int, inclusive: bool) -> int {
    if inclusive {
        end - start + 1
    } else {
        end - start
    }
}

/// How to unroll a counting loop, if it can be: a small body without control
/// signals, a range between constants, few iterations, and an iteration step
/// that is a call.
pub open spec fn unroll_of(g: &DataFlowGraph, sg: SubGraph, body: SubGraph, body_sg: SubGraphId) -> Option<
    UnrollInfo,
> {
    let (bs, be) = (body.node_range.0.0, body.node_range.1.0);
    let r = first_range(g, sg.node_range.0.0 as int, sg.node_range.1.0 as int);
    if be - bs > MAX_UNROLL_BODY_NODES || has_signal(g, bs as int, be as int) || r is None
        || g.inputs_of(r->0).len() < 2 {
        None
    } else {
        let a = const_at(g, g.inputs_of(r->0)[0]);
        let b = const_at(g, g.inputs_of(r->0)[1]);
        if a is None || b is None || signed_of(a->0) is None || signed_of(b->0) is None {
            None
        } else {
            let n = trips(
                signed_of(a->0)->0,
                signed_of(b->0)->0,
                g.nodes@[r->0].compute_fn.0 == CF_RANGE_INCLUSIVE,
            );
            if n < 1 || n > MAX_UNROLL || sg.iter_next_node is None || g.nodes@[(
            sg.iter_next_node->0).0 as int].compute_fn.0 != CF_CALL_LAUNCH {
                None
            } else {
                Some(
                    UnrollInfo {
                        trip_count: n as u32,
                        loop_var_node: NodeId((bs + 1) as u32),
                        start_value: signed_of(a->0)->0 as i128,
                        step: 1,
                        body_sg,
                        start_const: a->0,
                    },
                )
            }
        }
    }
}

/// The value of an integer constant.
pub fn const_to_i128(cv: &ConstValue) -> (r: Option<i128>)
    ensures
        r is Some <==> signed_of(*cv) is Some,
        r is Some ==> r->0 == signed_of(*cv)->0,
{
    proof {
        crate::arith::lemma_widths(IntTy::I128);
        if int_of(*cv) is Some {
            let v = (int_of(*cv)->0).1;
            let m = IntTy::I128.modulus();
            if v < 0 {
                vstd::arithmetic::div_mod::lemma_fundamental_div_mod_converse(v, m, -1, v + m);
            } else {
                vstd::arithmetic::div_mod::lemma_fundamental_div_mod_converse(v, m, 0, v);
            }
        }
    }
    match *cv {
        ConstValue::I8(v) => Some(v as i128),
        ConstValue::I16(v) => Some(v as i128),
        ConstValue::I32(v) => Some(v as i128),
        ConstValue::I64(v) => Some(v as i128),
        ConstValue::I128(v) => Some(v),
        ConstValue::U8(v) => Some(v as i128),
        ConstValue::U16(v) => Some(v as i128),
        ConstValue::U32(v) => Some(v as i128),
        ConstValue::U64(v) => Some(v as i128),
        ConstValue::U128(v) => {
            if v <= i128::MAX as u128 {
                Some(v as i128)
            } else {
                Some(-((u128::MAX - v) as i128) - 1)
            }
        },
        ConstValue::Isize(v) => Some(v as i128),
        ConstValue::Usize(v) => Some(v as i128),
        _ => None,
    }
}

fn body_has_signal(graph: &DataFlowGraph, lo: u32, hi: u32) -> (r: bool)
    requires
        hi <= graph.nodes@.len(),
    ensures
        r == has_signal(graph, lo as int, hi as int),
{
    let mut i: u32 = lo;
    while i < hi
        invariant
            hi <= graph.nodes@.len(),
            lo <= i,
            i <= hi || i == lo,
            forall|k: int|
                lo <= k < i ==> !is_control_flow_id((#[trigger] graph.nodes@[k]).compute_fn.0),
        decreases hi - i,
    {
        if is_control_flow_compute_fn(graph.nodes[i as usize].compute_fn) {
            assert(is_control_flow_id(graph.nodes@[i as int].compute_fn.0));
            return true;
        }
        i = i + 1;
    }
    false
}

fn find_range(graph: &DataFlowGraph, lo: u32, hi: u32) -> (r: Option<usize>)
    requires
        hi <= graph.nodes@.len(),
    ensures
        r is Some <==> first_range(graph, lo as int, hi as int) is Some,
        r is Some ==> r->0 == first_range(graph, lo as int, hi as int)->0 && r->0
            < graph.nodes@.len(),
{
    let mut i: u32 = lo;
    while i < hi
        invariant
            hi <= graph.nodes@.len(),
            lo <= i,
            i <= hi || i == lo,
            first_range(graph, lo as int, hi as int) == first_range(graph, i as int, hi as int),
        decreases hi - i,
    {
        let cf = graph.nodes[i as usize].compute_fn.0;
        if cf == CF_RANGE || cf == CF_RANGE_INCLUSIVE {
            return Some(i as usize);
        }
        i = i + 1;
    }
    None
}

fn const_value_at(graph: &DataFlowGraph, x: NodeId) -> (r: Option<ConstValue>)
    ensures
        r == const_at(graph, x),
{
    if (x.0 as usize) < graph.meta.len() {
        graph.meta[x.0 as usize].const_value
    } else {
        None
    }
}

/// What the analysis reads of a loop and its body lies in the graph.
pub open spec fn loop_wf(g: &DataFlowGraph, sg: SubGraph, body: SubGraph) -> bool {
    &&& g.wf()
    &&& sg.node_range.1.0 <= g.nodes@.len()
    &&& body.node_range.0.0 <= body.node_range.1.0 <= g.nodes@.len()
    &&& body.node_range.0.0 < u32::MAX
    &&& sg.iter_next_node is Some ==> (sg.iter_next_node->0).0 < g.nodes@.len()
}

/// Finds out whether a counting loop can be unrolled.
pub fn analyze_unroll(graph: &DataFlowGraph, loop_sg: SubGraphId, body_sg: SubGraphId) -> (r: Option<
    UnrollInfo,
>)
    requires
        loop_sg.0 < graph.subgraphs@.len(),
        body_sg.0 < graph.subgraphs@.len(),
        loop_wf(
            graph,
            graph.subgraphs@[loop_sg.0 as int],
            graph.subgraphs@[body_sg.0 as int],
        ),
    ensures
        r == unroll_of(
            graph,
            graph.subgraphs@[loop_sg.0 as int],
            graph.subgraphs@[body_sg.0 as int],
            body_sg,
        ),
{
    let sg_range = graph.subgraphs[loop_sg.0 as usize].node_range;
    let body_range = graph.subgraphs[body_sg.0 as usize].node_range;
    if body_range.1.0 - body_range.0.0 > MAX_UNROLL_BODY_NODES {
        return None;
    }
    if body_has_signal(graph, body_range.0.0, body_range.1.0) {
        return None;
    }
    let r = match find_range(graph, sg_range.0.0, sg_range.1.0) {
        None => {
            return None;
        },
        Some(r) => r,
    };
    let inputs = graph.inputs(r);
    if inputs.len() < 2 {
        return None;
    }
    let (a, b) = match (const_value_at(graph, inputs[0]), const_value_at(graph, inputs[1])) {
        (Some(a), Some(b)) => (a, b),
        _ => {
            return None;
        },
    };
    let (start, end) = match (const_to_i128(&a), const_to_i128(&b)) {
        (Some(s), Some(e)) => (s, e),
        _ => {
            return None;
        },
    };
    let inclusive = graph.nodes[r].compute_fn.0 == CF_RANGE_INCLUSIVE;
    if end < start {
        return None;
    }
    let span: i128 = match end.checked_sub(start) {
        None => {
            return None;
        },
        Some(d) => d,
    };
    if span > MAX_UNROLL as i128 {
        return None;
    }
    let count: u32 = if inclusive {
        span as u32 + 1
    } else {
        span as u32
    };
    if count == 0 || count > MAX_UNROLL {
        return None;
    }
    let iter = match graph.subgraphs[loop_sg.0 as usize].iter_next_node {
        None => {
            return None;
        },
        Some(n) => n,
    };
    if graph.nodes[iter.0 as usize].compute_fn.0 != CF_CALL_LAUNCH {
        return None;
    }
    Some(
        UnrollInfo {
            trip_count: count,
            loop_var_node: NodeId(body_range.0.0 + 1),
            start_value: start,
            step: 1,
            body_sg,
            start_const: a,
        },
    )
}

// ---- the analysis ----------------------------------------------------------

/// Whether the subgraph is a loop (not the body of one).
pub open spec fn is_loop(sg: SubGraph) -> bool {
    sg.loop_kind != LoopKind::NotLoop && sg.loop_kind != LoopKind::LoopBody
}

/// The first subgraph from `k` on that is the body of loop `s`.
pub open spec fn body_of(g: &DataFlowGraph, s: int, k: int) -> Option<int>
    decreases g.subgraphs@.len() - k,
{
    if k >= g.subgraphs@.len() {
        None
    } else if g.subgraphs@[k].loop_kind == LoopKind::LoopBody && g.subgraphs@[k].loop_parent_sg
        == Some(SubGraphId(s as u32)) {
        Some(k)
    } else {
        body_of(g, s, k + 1)
    }
}

/// The invariant lists of the first `n` subgraphs.
pub open spec fn invariants_upto(g: &DataFlowGraph, n: int) -> Seq<(SubGraphId, Seq<NodeId>)>
    decreases n,
{
    if n <= 0 {
        Seq::empty()
    } else {
        let prev = invariants_upto(g, n - 1);
        let s = n - 1;
        if !is_loop(g.subgraphs@[s]) || body_of(g, s, 0) is None {
            prev
        } else {
            let b = body_of(g, s, 0)->0;
            let list = invariants_of(g, g.subgraphs@[s], g.subgraphs@[b], pure_ids());
            if list.len() == 0 {
                prev
            } else {
                prev.push((SubGraphId(b as u32), list))
            }
        }
    }
}

/// The unrollable loops among the first `n` subgraphs.
pub open spec fn unrollable_upto(g: &DataFlowGraph, n: int) -> Seq<(SubGraphId, UnrollInfo)>
    decreases n,
{
    if n <= 0 {
        Seq::empty()
    } else {
        let prev = unrollable_upto(g, n - 1);
        let s = n - 1;
        if g.subgraphs@[s].loop_kind != LoopKind::For || body_of(g, s, 0) is None {
            prev
        } else {
            let b = body_of(g, s, 0)->0;
            match unroll_of(g, g.subgraphs@[s], g.subgraphs@[b], SubGraphId(b as u32)) {
                None => prev,
                Some(u) => prev.push((SubGraphId(s as u32), u)),
            }
        }
    }
}

/// The invariant lists of a report.
pub open spec fn invariant_views(v: Seq<BodyInvariants>) -> Seq<(SubGraphId, Seq<NodeId>)> {
    Seq::new(v.len(), |k: int| (v[k].body_sg, v[k].nodes@))
}

pub(crate) fn find_body(graph: &DataFlowGraph, s: usize) -> (r: Option<usize>)
    requires
        graph.subgraphs@.len() <= u32::MAX,
        s < graph.subgraphs@.len(),
    ensures
        r is Some <==> body_of(graph, s as int, 0) is Some,
        r is Some ==> r->0 == body_of(graph, s as int, 0)->0 && r->0 < graph.subgraphs@.len(),
{
    let mut k: usize = 0;
    while k < graph.subgraphs.len()
        invariant
            graph.subgraphs@.len() <= u32::MAX,
            s < graph.subgraphs@.len(),
            k <= graph.subgraphs@.len(),
            body_of(graph, s as int, 0) == body_of(graph, s as int, k as int),
        decreases graph.subgraphs@.len() - k,
    {
        let sg = &graph.subgraphs[k];
        if sg.loop_kind == LoopKind::LoopBody {
            if let Some(p) = sg.loop_parent_sg {
                if p == SubGraphId(s as u32) {
                    return Some(k);
                }
            }
        }
        k = k + 1;
    }
    None
}

/// Everything the analysis reads lies in the graph.
pub open spec fn loops_wf(g: &DataFlowGraph) -> bool {
    &&& g.wf()
    &&& g.subgraphs@.len() <= u32::MAX
    &&& forall|s: int| #![trigger g.subgraphs@[s]]
        0 <= s < g.subgraphs@.len() && is_loop(g.subgraphs@[s]) && body_of(g, s, 0) is Some
            ==> loop_wf(g, g.subgraphs@[s], g.subgraphs@[body_of(g, s, 0)->0])
}

/// Analyses every loop of the graph.
pub fn analyze_loops(graph: &DataFlowGraph) -> (report: LoopAnalysisReport)
    requires
        loops_wf(graph),
    ensures
        invariant_views(report.invariants@) == invariants_upto(
            graph,
            graph.subgraphs@.len() as int,
        ),
        report.unrollable@ == unrollable_upto(graph, graph.subgraphs@.len() as int),
{
    let pure_set = pure_compute_fn_set();
    let mut invariants: Vec<BodyInvariants> = Vec::new();
    let mut unrollable: Vec<(SubGraphId, UnrollInfo)> = Vec::new();
    assert(invariant_views(invariants@) =~= Seq::<(SubGraphId, Seq<NodeId>)>::empty());
    let mut s: usize = 0;
    while s < graph.subgraphs.len()
        invariant
            loops_wf(graph),
            pure_set@ == pure_ids(),
            s <= graph.subgraphs@.len(),
            invariant_views(invariants@) == invariants_upto(graph, s as int),
            unrollable@ == unrollable_upto(graph, s as int),
        decreases graph.subgraphs@.len() - s,
    {
        let kind = graph.subgraphs[s].loop_kind;
        if kind != LoopKind::NotLoop && kind != LoopKind::LoopBody {
            if let Some(b) = find_body(graph, s) {
                assert(loop_wf(graph, graph.subgraphs@[s as int], graph.subgraphs@[b as int]));
                let ghost was = invariants@;
                let body_id = SubGraphId(b as u32);
                let list = find_invariants(graph, SubGraphId(s as u32), body_id, &pure_set);
                if list.len() > 0 {
                    invariants.push(BodyInvariants { body_sg: body_id, nodes: list });
                    assert(invariant_views(invariants@) =~= invariant_views(was).push(
                        (body_id, list@),
                    ));
                }
                if kind == LoopKind::For {
                    if let Some(u) = analyze_unroll(graph, SubGraphId(s as u32), body_id) {
                        unrollable.push((SubGraphId(s as u32), u));
                    }
                }
            }
        }
        s = s + 1;
    }
    LoopAnalysisReport { invariants, unrollable }
}

// ---- laws ------------------------------------------------------------------

/// An invariant node depends on nothing that changes with the iteration: each
/// of its inputs neither drives the loop nor is overwritten in the body, and
/// lies outside all loops or is an invariant found before it.
pub proof fn law_invariants_have_steady_inputs(
    g: &DataFlowGraph,
    sg: SubGraph,
    body: SubGraph,
    pure_set: Set<u32>,
    list: Seq<NodeId>,
    k: int,
    j: int,
)
    requires
        invariants_sound(g, sg, body, pure_set, list),
        0 <= k < list.len(),
        0 <= j < g.inputs_of(list[k].0 as int).len(),
    ensures
        ({
            let x = g.inputs_of(list[k].0 as int)[j];
            &&& !drives_loop(sg, x)
            &&& !modified_in(g, body, x)
            &&& at_function_level(g, x) || list.take(k).contains(x)
        }),
{
    assert(in_range(body.node_range, list[k].0 as int));
    assert(steady_input(g, sg, body, list.take(k), g.inputs_of(list[k].0 as int)[j]));
}

/// An unrolled loop has at least one and at most eight iterations.
pub proof fn law_unrolled_loops_are_short(
    g: &DataFlowGraph,
    sg: SubGraph,
    body: SubGraph,
    body_sg: SubGraphId,
)
    requires
        unroll_of(g, sg, body, body_sg) is Some,
    ensures
        1 <= unroll_of(g, sg, body, body_sg)->0.trip_count <= MAX_UNROLL,
        body.node_range.1.0 - body.node_range.0.0 <= MAX_UNROLL_BODY_NODES,
        !has_signal(g, body.node_range.0.0 as int, body.node_range.1.0 as int),
{
}

/// Whether the loop variable has the value in one of the iterations.
pub open spec fn takes_value(u: UnrollInfo, v: int) -> bool {
    exists|k: int| 0 <= k < u.trip_count && v == u.start_value + #[trigger] (u.step * k)
}

/// Unrolling runs through the range that the loop runs through: the loop has a
/// range node with constant bounds, and the values of the loop variable are
/// exactly the numbers from the lower bound up to the upper one, which is among
/// them where the range includes it. Returns the range node.
pub proof fn law_unrolling_runs_through_the_range(
    g: &DataFlowGraph,
    sg: SubGraph,
    body: SubGraph,
    body_sg: SubGraphId,
) -> (r: int)
    requires
        unroll_of(g, sg, body, body_sg) is Some,
    ensures
        sg.node_range.0.0 <= r < sg.node_range.1.0,
        g.nodes@[r].compute_fn.0 == CF_RANGE || g.nodes@[r].compute_fn.0 == CF_RANGE_INCLUSIVE,
        forall|q: int|
            sg.node_range.0.0 <= q < r ==> (#[trigger] g.nodes@[q]).compute_fn.0 != CF_RANGE
                && g.nodes@[q].compute_fn.0 != CF_RANGE_INCLUSIVE,
        ({
            let u = unroll_of(g, sg, body, body_sg)->0;
            let lo = g.meta@[g.inputs_of(r)[0].0 as int].const_value;
            let hi = g.meta@[g.inputs_of(r)[1].0 as int].const_value;
            &&& u.body_sg == body_sg
            &&& u.loop_var_node.0 == body.node_range.0.0 + 1 || body.node_range.0.0 == u32::MAX
            &&& lo == Some(u.start_const)
            &&& hi is Some && int_of(lo->0) is Some && int_of(hi->0) is Some
            &&& ({
                let start = (int_of(lo->0)->0).1;
                let end = (int_of(hi->0)->0).1;
                i128::MIN <= start <= i128::MAX && i128::MIN <= end <= i128::MAX ==> forall|v: int|
                    #[trigger] takes_value(u, v) <==> start <= v && (v < end || v == end && g.nodes@[r].compute_fn.0 == CF_RANGE_INCLUSIVE)
            })
        }),
{
    let lo = sg.node_range.0.0 as int;
    let hi = sg.node_range.1.0 as int;
    let r = first_range(g, lo, hi)->0;
    lemma_first_range(g, lo, hi);
    let u = unroll_of(g, sg, body, body_sg)->0;
    let a = g.meta@[g.inputs_of(r)[0].0 as int].const_value->0;
    let b = g.meta@[g.inputs_of(r)[1].0 as int].const_value->0;
    let start = (int_of(a)->0).1;
    let end = (int_of(b)->0).1;
    if i128::MIN <= start <= i128::MAX && i128::MIN <= end <= i128::MAX {
        lemma_i128_wrap(start);
        lemma_i128_wrap(end);
        assert forall|v: int|
            #[trigger] takes_value(u, v) <==> start <= v && (v
                < end || v == end && g.nodes@[r].compute_fn.0 == CF_RANGE_INCLUSIVE) by {
            assert forall|k: int| #[trigger] (u.step * k) == k by {
                assert(u.step * k == k) by (nonlinear_arith)
                    requires
                        u.step == 1,
                ;
            }
            if start <= v && (v < end || v == end && g.nodes@[r].compute_fn.0 == CF_RANGE_INCLUSIVE) {
                let k = v - start;
                assert(v == u.start_value + u.step * k);
            }
        }
    }
    r
}

proof fn lemma_i128_wrap(v: int)
    requires
        i128::MIN <= v <= i128::MAX,
    ensures
        IntTy::I128.wrap(v) == v,
{
    crate::arith::lemma_widths(IntTy::I128);
    let m = IntTy::I128.modulus();
    if v < 0 {
        vstd::arithmetic::div_mod::lemma_fundamental_div_mod_converse(v, m, -1, v + m);
    } else {
        vstd::arithmetic::div_mod::lemma_fundamental_div_mod_converse(v, m, 0, v);
    }
}

proof fn lemma_first_range(g: &DataFlowGraph, lo: int, hi: int)
    ensures
        match first_range(g, lo, hi) {
            Some(r) => lo <= r < hi && (g.nodes@[r].compute_fn.0 == CF_RANGE || g.nodes@[r].compute_fn.0
                == CF_RANGE_INCLUSIVE) && forall|q: int|
                lo <= q < r ==> (#[trigger] g.nodes@[q]).compute_fn.0 != CF_RANGE && g.nodes@[q].compute_fn.0
                    != CF_RANGE_INCLUSIVE,
            None => true,
        },
    decreases hi - lo,
{
    if lo < hi {
        lemma_first_range(g, lo + 1, hi);
    }
}

/// An invariant node is a pure computation of the body that launches nothing.
/// None of its inputs is the loop's condition or iterator, none is written back
/// to by the body, and each lies in no loop or is an invariant found before.
pub proof fn law_invariants_do_not_change_in_the_loop(
    g: &DataFlowGraph,
    sg: SubGraph,
    body: SubGraph,
    pure_set: Set<u32>,
    list: Seq<NodeId>,
    k: int,
)
    requires
        invariants_sound(g, sg, body, pure_set, list),
        0 <= k < list.len(),
    ensures
        ({
            let i = list[k].0 as int;
            let kind = g.nodes@[i].kind;
            &&& body.node_range.0.0 <= i < body.node_range.1.0
            &&& pure_set.contains(g.nodes@[i].compute_fn.0)
            &&& kind != NodeKind::Gate && kind != NodeKind::Call && kind != NodeKind::Await && kind
                != NodeKind::EventSource
            &&& forall|j: int| #![trigger g.inputs_of(i)[j]]
                0 <= j < g.inputs_of(i).len() ==> {
                    let x = g.inputs_of(i)[j];
                    &&& sg.cond_node != Some(x) && sg.iter_next_node != Some(x)
                    &&& forall|w: int|
                        body.node_range.0.0 <= w < body.node_range.1.0 && w < g.meta@.len() ==> (
                        #[trigger] g.meta@[w]).writeback_target != Some(x)
                    &&& (exists|m: int| 0 <= m < k && #[trigger] list[m] == x) || forall|s: int|
                        #![trigger g.subgraphs@[s]]
                        0 <= s < g.subgraphs@.len() && g.subgraphs@[s].node_range.0.0 <= x.0
                            < g.subgraphs@[s].node_range.1.0 ==> g.subgraphs@[s].loop_kind == LoopKind::NotLoop
                }
        }),
{
    let i = list[k].0 as int;
    assert(in_range(body.node_range, list[k].0 as int));
    assert(next_invariant(g, sg, body, pure_set, list.take(k), i));
    assert forall|j: int| #![trigger g.inputs_of(i)[j]] 0 <= j < g.inputs_of(i).len() implies {
        let x = g.inputs_of(i)[j];
        &&& sg.cond_node != Some(x) && sg.iter_next_node != Some(x)
        &&& forall|w: int|
            body.node_range.0.0 <= w < body.node_range.1.0 && w < g.meta@.len() ==> (
            #[trigger] g.meta@[w]).writeback_target != Some(x)
        &&& (exists|m: int| 0 <= m < k && #[trigger] list[m] == x) || forall|s: int|
            #![trigger g.subgraphs@[s]]
            0 <= s < g.subgraphs@.len() && g.subgraphs@[s].node_range.0.0 <= x.0 < g.subgraphs@[s].node_range.1.0
                ==> g.subgraphs@[s].loop_kind == LoopKind::NotLoop
    } by {
        let x = g.inputs_of(i)[j];
        assert(steady_input(g, sg, body, list.take(k), x));
        assert forall|w: int|
            body.node_range.0.0 <= w < body.node_range.1.0 && w < g.meta@.len() implies (
        #[trigger] g.meta@[w]).writeback_target != Some(x) by {
            if g.meta@[w].writeback_target == Some(x) {
                assert(in_range(body.node_range, w));
                assert(modified_in(g, body, x));
            }
        }
        if list.take(k).contains(x) {
            let m = choose|m: int| 0 <= m < list.take(k).len() && list.take(k)[m] == x;
            assert(list[m] == x);
        }
    }
}

/// Every pure computation of the body that launches nothing, and whose inputs
/// all lie outside every loop, do not drive this one and are not written back to
/// by the body, is found invariant.
pub proof fn law_plain_invariants_are_found(
    g: &DataFlowGraph,
    sg: SubGraph,
    body: SubGraph,
    pure_set: Set<u32>,
    list: Seq<NodeId>,
    i: u32,
)
    requires
        invariants_are(g, sg, body, pure_set, list),
        body.node_range.0.0 <= i < body.node_range.1.0,
        pure_set.contains(g.nodes@[i as int].compute_fn.0),
        g.nodes@[i as int].kind != NodeKind::Gate,
        g.nodes@[i as int].kind != NodeKind::Call,
        g.nodes@[i as int].kind != NodeKind::Await,
        g.nodes@[i as int].kind != NodeKind::EventSource,
        forall|j: int| #![trigger g.inputs_of(i as int)[j]]
            0 <= j < g.inputs_of(i as int).len() ==> {
                let x = g.inputs_of(i as int)[j];
                &&& sg.cond_node != Some(x) && sg.iter_next_node != Some(x)
                &&& forall|w: int|
                    body.node_range.0.0 <= w < body.node_range.1.0 && w < g.meta@.len() ==> (
                    #[trigger] g.meta@[w]).writeback_target != Some(x)
                &&& forall|s: int| #![trigger g.subgraphs@[s]]
                    0 <= s < g.subgraphs@.len() && g.subgraphs@[s].node_range.0.0 <= x.0
                        < g.subgraphs@[s].node_range.1.0 ==> g.subgraphs@[s].loop_kind == LoopKind::NotLoop
            },
    ensures
        list.contains(NodeId(i)),
{
    lemma_plain_is_swept(g, sg, body, pure_set, list, body.node_range.1.0 as int, i);
}

proof fn lemma_plain_is_swept(
    g: &DataFlowGraph,
    sg: SubGraph,
    body: SubGraph,
    pure_set: Set<u32>,
    found: Seq<NodeId>,
    hi: int,
    i: u32,
)
    requires
        body.node_range.0.0 <= i < hi,
        hi <= u32::MAX,
        pure_set.contains(g.nodes@[i as int].compute_fn.0),
        !launches(g.nodes@[i as int].kind),
        forall|j: int| #![trigger g.inputs_of(i as int)[j]]
            0 <= j < g.inputs_of(i as int).len() ==> {
                let x = g.inputs_of(i as int)[j];
                &&& sg.cond_node != Some(x) && sg.iter_next_node != Some(x)
                &&& forall|w: int|
                    body.node_range.0.0 <= w < body.node_range.1.0 && w < g.meta@.len() ==> (
                    #[trigger] g.meta@[w]).writeback_target != Some(x)
                &&& forall|s: int| #![trigger g.subgraphs@[s]]
                    0 <= s < g.subgraphs@.len() && g.subgraphs@[s].node_range.0.0 <= x.0
                        < g.subgraphs@[s].node_range.1.0 ==> g.subgraphs@[s].loop_kind == LoopKind::NotLoop
            },
    ensures
        invariant_sweep(g, sg, body, pure_set, found, hi).contains(NodeId(i)),
    decreases hi,
{
    let prev = invariant_sweep(g, sg, body, pure_set, found, hi - 1);
    if i == hi - 1 {
        if !prev.contains(NodeId(i)) {
            assert forall|j: int| #![trigger g.inputs_of(i as int)[j]]
                0 <= j < g.inputs_of(i as int).len() implies steady_input(
                g,
                sg,
                body,
                prev,
                g.inputs_of(i as int)[j],
            ) by {
                let x = g.inputs_of(i as int)[j];
                assert(sg.cond_node != Some(x));
                if modified_in(g, body, x) {
                    let w = choose|w: int|
                        in_range(body.node_range, w) && w < g.meta@.len() && (
                        #[trigger] g.meta@[w]).writeback_target == Some(x);
                    assert(g.meta@[w].writeback_target != Some(x));
                }
                assert(at_function_level(g, x));
            }
            assert(next_invariant(g, sg, body, pure_set, prev, hi - 1));
            assert(prev.push(NodeId(i))[prev.len() as int] == NodeId(i));
        }
    } else {
        lemma_plain_is_swept(g, sg, body, pure_set, found, hi - 1, i);
    }
    if prev.contains(NodeId(i)) {
        let m = choose|m: int| 0 <= m < prev.len() && prev[m] == NodeId(i);
        assert(prev.push(NodeId((hi - 1) as u32))[m] == NodeId(i));
    }
}

/// Every loop with a body and with invariants has them listed under its body,
/// and every counted loop that can be unrolled is listed as such. A loop's body
/// is the first subgraph that is the body of that loop.
pub proof fn law_every_loop_is_analyzed(g: &DataFlowGraph, s: int, b: int)
    requires
        0 <= s < g.subgraphs@.len() <= u32::MAX,
        0 <= b < g.subgraphs@.len(),
        g.subgraphs@[b].loop_kind == LoopKind::LoopBody,
        g.subgraphs@[b].loop_parent_sg == Some(SubGraphId(s as u32)),
        forall|k: int| #![trigger g.subgraphs@[k]]
            0 <= k < b ==> g.subgraphs@[k].loop_kind != LoopKind::LoopBody || g.subgraphs@[k].loop_parent_sg != Some(
                SubGraphId(s as u32),
            ),
        g.subgraphs@[s].loop_kind != LoopKind::NotLoop,
        g.subgraphs@[s].loop_kind != LoopKind::LoopBody,
    ensures
        ({
            let n = g.subgraphs@.len() as int;
            let list = invariants_of(g, g.subgraphs@[s], g.subgraphs@[b], pure_ids());
            let u = unroll_of(g, g.subgraphs@[s], g.subgraphs@[b], SubGraphId(b as u32));
            &&& list.len() > 0 ==> invariants_upto(g, n).contains((SubGraphId(b as u32), list))
            &&& g.subgraphs@[s].loop_kind == LoopKind::For && u is Some ==> unrollable_upto(g, n).contains(
                (SubGraphId(s as u32), u->0),
            )
        }),
{
    lemma_body_of(g, s, 0, b);
    lemma_loop_is_listed(g, g.subgraphs@.len() as int, s);
}

proof fn lemma_body_of(g: &DataFlowGraph, s: int, k: int, b: int)
    requires
        0 <= k <= b < g.subgraphs@.len(),
        g.subgraphs@[b].loop_kind == LoopKind::LoopBody,
        g.subgraphs@[b].loop_parent_sg == Some(SubGraphId(s as u32)),
        forall|j: int| #![trigger g.subgraphs@[j]]
            k <= j < b ==> g.subgraphs@[j].loop_kind != LoopKind::LoopBody || g.subgraphs@[j].loop_parent_sg != Some(
                SubGraphId(s as u32),
            ),
    ensures
        body_of(g, s, k) == Some(b),
    decreases b - k,
{
    if k < b {
        assert(g.subgraphs@[k].loop_kind != LoopKind::LoopBody || g.subgraphs@[k].loop_parent_sg != Some(
            SubGraphId(s as u32),
        ));
        lemma_body_of(g, s, k + 1, b);
    }
}

proof fn lemma_loop_is_listed(g: &DataFlowGraph, n: int, s: int)
    requires
        0 <= s < n <= g.subgraphs@.len(),
        is_loop(g.subgraphs@[s]),
        body_of(g, s, 0) is Some,
    ensures
        ({
            let b = body_of(g, s, 0)->0;
            let list = invariants_of(g, g.subgraphs@[s], g.subgraphs@[b], pure_ids());
            let u = unroll_of(g, g.subgraphs@[s], g.subgraphs@[b], SubGraphId(b as u32));
            &&& list.len() > 0 ==> invariants_upto(g, n).contains((SubGraphId(b as u32), list))
            &&& g.subgraphs@[s].loop_kind == LoopKind::For && u is Some ==> unrollable_upto(g, n).contains(
                (SubGraphId(s as u32), u->0),
            )
        }),
    decreases n,
{
    let b = body_of(g, s, 0)->0;
    let x = (SubGraphId(b as u32), invariants_of(g, g.subgraphs@[s], g.subgraphs@[b], pure_ids()));
    let u = unroll_of(g, g.subgraphs@[s], g.subgraphs@[b], SubGraphId(b as u32));
    let p = invariants_upto(g, n - 1);
    let q = unrollable_upto(g, n - 1);
    if s < n - 1 {
        lemma_loop_is_listed(g, n - 1, s);
        let all = invariants_upto(g, n);
        let both = unrollable_upto(g, n);
        if x.1.len() > 0 {
            let i = choose|i: int| 0 <= i < p.len() && p[i] == x;
            assert(all[i] == x);
        }
        if g.subgraphs@[s].loop_kind == LoopKind::For && u is Some {
            let y = (SubGraphId(s as u32), u->0);
            let i = choose|i: int| 0 <= i < q.len() && q[i] == y;
            assert(both[i] == y);
        }
    } else {
        if x.1.len() > 0 {
            assert(p.push(x)[p.len() as int] == x);
        }
        if u is Some {
            let y = (SubGraphId(s as u32), u->0);
            assert(q.push(y)[q.len() as int] == y);
        }
    }
}

/// A loop is unrolled only where no node of its body returns, breaks, continues
/// or throws.
pub proof fn law_bodies_with_jumps_are_not_unrolled(
    g: &DataFlowGraph,
    sg: SubGraph,
    body: SubGraph,
    body_sg: SubGraphId,
    i: int,
)
    requires
        unroll_of(g, sg, body, body_sg) is Some,
        body.node_range.0.0 <= i < body.node_range.1.0,
    ensures
        g.nodes@[i].compute_fn.0 != CF_RETURN,
        g.nodes@[i].compute_fn.0 != CF_BREAK,
        g.nodes@[i].compute_fn.0 != CF_CONTINUE,
        g.nodes@[i].compute_fn.0 != CF_THROW_WRAP_ERR,
{
    law_unrolled_loops_are_short(g, sg, body, body_sg);
    let n = g.nodes@[i];
}

} // verus!
