//! Function inlining on the graph.
//!
//! A call of a small pure function becomes a sequence node: the callee's body
//! is cloned behind the graph for the caller, with its parameters mapped to
//! the call's arguments, and the call node forwards the cloned return value
//! once its effect input is ready.

use vstd::prelude::*;

use crate::fx::IdSet;
use crate::ir::compute_fns::{
    is_launch_kind, launches, pure_compute_fn_set, pure_ids, CF_CALL_LAUNCH, CF_NOOP, CF_SEQ,
};
use crate::ir::graph::{in_range, range_size, DataFlowGraph};
use crate::ir::meta::NodeMeta;
use crate::ir::types::{ComputeFnId, Node, NodeId, NodeKind, SubGraph, SubGraphId};
use crate::pass::cloning::{appended, clone_meta, lemma_appended_refl, lemma_appended_trans};
use crate::pass::context::OptimizerContext;

verus! {

/// Most nodes of a function that is inlined.
pub const MAX_INLINE_NODES: u32 = 20;

/// A call to inline.
#[derive(Clone, Copy, Debug, PartialEq, Eq, Structural)]
pub struct InlineCandidate {
    /// The call node.
    pub call_node: NodeId,
    /// The called subgraph.
    pub callee_sg: SubGraphId,
    /// The function subgraph that the call is in.
    pub caller_func_sg: SubGraphId,
}

// ---- candidates ------------------------------------------------------------

/// The function subgraph of a node.
pub open spec fn function_sg(g: &DataFlowGraph, node: NodeId) -> Option<SubGraphId> {
    choose|r: Option<SubGraphId>| g.function_sg_of(node, r)
}

/// The innermost subgraph of a node.
pub open spec fn innermost_sg(g: &DataFlowGraph, node: NodeId) -> Option<SubGraphId> {
    choose|r: Option<SubGraphId>| g.smallest_first(g.holds(node), r)
}

proof fn lemma_largest_unique(
    g: &DataFlowGraph,
    wanted: spec_fn(int) -> bool,
    a: Option<SubGraphId>,
    b: Option<SubGraphId>,
)
    requires
        g.largest_first(wanted, a),
        g.largest_first(wanted, b),
    ensures
        a == b,
{
    if a is Some {
        assert(wanted((a->0).0 as int));
    }
    if b is Some {
        assert(wanted((b->0).0 as int));
    }
}

proof fn lemma_smallest_unique(
    g: &DataFlowGraph,
    wanted: spec_fn(int) -> bool,
    a: Option<SubGraphId>,
    b: Option<SubGraphId>,
)
    requires
        g.smallest_first(wanted, a),
        g.smallest_first(wanted, b),
    ensures
        a == b,
{
    if a is Some {
        assert(wanted((a->0).0 as int));
    }
    if b is Some {
        assert(wanted((b->0).0 as int));
    }
}

proof fn lemma_function_sg(g: &DataFlowGraph, node: NodeId, r: Option<SubGraphId>)
    requires
        g.function_sg_of(node, r),
    ensures
        function_sg(g, node) == r,
{
    let o = function_sg(g, node);
    assert(g.function_sg_of(node, o));
    if exists|i: int| 0 <= i < g.subgraphs@.len() && #[trigger] g.holds_outside_loops(node)(i) {
        lemma_largest_unique(g, g.holds_outside_loops(node), o, r);
    } else {
        lemma_largest_unique(g, g.holds(node), o, r);
    }
}

proof fn lemma_innermost_sg(g: &DataFlowGraph, node: NodeId, r: Option<SubGraphId>)
    requires
        g.smallest_first(g.holds(node), r),
    ensures
        innermost_sg(g, node) == r,
{
    lemma_smallest_unique(g, g.holds(node), innermost_sg(g, node), r);
}

/// Whether all ids lie in the range.
pub open spec fn all_in_range(range: (NodeId, NodeId), ids: Seq<NodeId>) -> bool {
    forall|k: int| 0 <= k < ids.len() ==> in_range(range, (#[trigger] ids[k]).0 as int)
}

/// Whether a node may be part of an inlined body: it launches nothing, is a
/// parameter or pure, and takes its inputs from the body.
pub open spec fn safe_in_body(g: &DataFlowGraph, range: (NodeId, NodeId), i: int) -> bool {
    &&& !launches(g.nodes@[i].kind)
    &&& g.nodes@[i].compute_fn.0 == CF_NOOP || pure_ids().contains(g.nodes@[i].compute_fn.0)
    &&& all_in_range(range, g.inputs_of(i))
}

/// Whether a function may be inlined: it does not suspend, captures nothing,
/// is small, returns a node of its own, and its body is pure. That rules out
/// recursion and control flow as well.
pub open spec fn inlinable(g: &DataFlowGraph, sg: SubGraph) -> bool {
    &&& !sg.has_suspend
    &&& sg.upvalue_count == 0
    &&& range_size(sg.node_range) <= MAX_INLINE_NODES
    &&& in_range(sg.node_range, sg.return_node.0 as int)
    &&& forall|i: int| #![trigger g.nodes@[i]]
        in_range(sg.node_range, i) ==> safe_in_body(g, sg.node_range, i)
}

/// Whether node `i` is a call to inline: a synchronous call, not in tail
/// position, of an inlinable function, directly inside a function subgraph,
/// with inputs of that function alone.
pub open spec fn inline_site(g: &DataFlowGraph, i: int) -> bool {
    let node = NodeId(i as u32);
    &&& g.nodes@[i].compute_fn.0 == CF_CALL_LAUNCH
    &&& !g.meta@[i].tail_call
    &&& g.meta@[i].call_target is Some
    &&& inlinable(g, g.subgraphs@[(g.meta@[i].call_target->0).0 as int])
    &&& function_sg(g, node) is Some
    &&& innermost_sg(g, node) == function_sg(g, node)
    &&& all_in_range(
        g.subgraphs@[(function_sg(g, node)->0).0 as int].node_range,
        g.inputs_of(i),
    )
}

/// The calls to inline among the first `n` nodes.
pub open spec fn inline_sites(g: &DataFlowGraph, n: int) -> Seq<InlineCandidate>
    decreases n,
{
    if n <= 0 {
        Seq::empty()
    } else if inline_site(g, n - 1) {
        inline_sites(g, n - 1).push(
            InlineCandidate {
                call_node: NodeId((n - 1) as u32),
                callee_sg: g.meta@[n - 1].call_target->0,
                caller_func_sg: function_sg(g, NodeId((n - 1) as u32))->0,
            },
        )
    } else {
        inline_sites(g, n - 1)
    }
}

/// Whether node `i` is a call whose callee is looked at: a synchronous one, not
/// in tail position.
pub open spec fn looks_at_callee(g: &DataFlowGraph, i: int) -> bool {
    g.nodes@[i].compute_fn.0 == CF_CALL_LAUNCH && !g.meta@[i].tail_call && g.meta@[i].call_target is Some
}

/// Whether the body of a function can be looked through: its range lies in the
/// graph, or something rules the function out before the look leaves the
/// graph.
#[verifier::opaque]
pub open spec fn callee_wf(g: &DataFlowGraph, sg: SubGraph) -> bool {
    ||| sg.node_range.1.0 <= g.nodes@.len()
    ||| sg.has_suspend
    ||| sg.upvalue_count > 0
    ||| range_size(sg.node_range) > MAX_INLINE_NODES
    ||| !in_range(sg.node_range, sg.return_node.0 as int)
    ||| exists|i: int| #![trigger g.nodes@[i]]
        in_range(sg.node_range, i) && i < g.nodes@.len() && !safe_in_body(g, sg.node_range, i)
}

/// The callees that are looked at are subgraphs whose bodies can be looked
/// through.
pub open spec fn calls_wf(g: &DataFlowGraph) -> bool {
    &&& g.wf()
    &&& g.subgraphs@.len() <= u32::MAX
    &&& forall|i: int| #![trigger g.meta@[i]]
        0 <= i < g.nodes@.len() && looks_at_callee(g, i) ==> {
            let t = g.meta@[i].call_target->0;
            t.0 < g.subgraphs@.len() && callee_wf(g, g.subgraphs@[t.0 as int])
        }
}

fn ids_in_range(ids: &[NodeId], range: (NodeId, NodeId)) -> (r: bool)
    ensures
        r == all_in_range(range, ids@),
{
    let mut i: usize = 0;
    while i < ids.len()
        invariant
            i <= ids@.len(),
            forall|k: int| 0 <= k < i ==> in_range(range, (#[trigger] ids@[k]).0 as int),
        decreases ids@.len() - i,
    {
        let x = ids[i];
        if x.0 < range.0.0 || x.0 >= range.1.0 {
            assert(!in_range(range, ids@[i as int].0 as int));
            return false;
        }
        i = i + 1;
    }
    true
}

/// Whether a function may be inlined; nothing where its body cannot be looked
/// through.
pub(crate) fn look_at_callee(graph: &DataFlowGraph, sg_id: SubGraphId, pure_set: &IdSet) -> (r: Option<bool>)
    requires
        graph.wf(),
        pure_set@ == pure_ids(),
        sg_id.0 < graph.subgraphs@.len(),
    ensures
        ({
            let sg = graph.subgraphs@[sg_id.0 as int];
            match r {
                Some(b) => callee_wf(graph, sg) && b == inlinable(graph, sg),
                None => !callee_wf(graph, sg),
            }
        }),
{
    proof {
        reveal(callee_wf);
    }
    let sg = &graph.subgraphs[sg_id.0 as usize];
    let range = sg.node_range;
    if sg.has_suspend || sg.upvalue_count > 0 || (range.0.0 < range.1.0 && range.1.0 - range.0.0
        > MAX_INLINE_NODES) {
        return Some(false);
    }
    let ret = sg.return_node;
    if ret.0 < range.0.0 || ret.0 >= range.1.0 {
        return Some(false);
    }
    let mut i: u32 = range.0.0;
    while i < range.1.0
        invariant
            graph.wf(),
            pure_set@ == pure_ids(),
            sg_id.0 < graph.subgraphs@.len(),
            *sg == graph.subgraphs@[sg_id.0 as int],
            range == sg.node_range,
            !sg.has_suspend,
            sg.upvalue_count == 0,
            range_size(range) <= MAX_INLINE_NODES,
            in_range(range, sg.return_node.0 as int),
            range.0.0 <= i <= range.1.0,
            i <= graph.nodes@.len() || i == range.0.0,
            forall|k: int| #![trigger graph.nodes@[k]]
                range.0.0 <= k < i ==> safe_in_body(graph, range, k),
        decreases range.1.0 - i,
    {
        proof {
            reveal(callee_wf);
        }
        if i as usize >= graph.nodes.len() {
            return None;
        }
        let node = graph.nodes[i as usize];
        let inputs = graph.inputs(i as usize);
        let safe = !is_launch_kind(node.kind) && (node.compute_fn.0 == CF_NOOP
            || pure_set.contains(node.compute_fn.0)) && ids_in_range(inputs, range);
        if !safe {
            assert(!safe_in_body(graph, range, i as int));
            assert(in_range(range, i as int));
            return Some(false);
        }
        i = i + 1;
    }
    Some(true)
}

/// Finds the calls to inline.
pub fn collect_inline_candidates(graph: &DataFlowGraph) -> (candidates: Vec<InlineCandidate>)
    requires
        calls_wf(graph),
    ensures
        candidates@ == inline_sites(graph, graph.nodes@.len() as int),
{
    let mut candidates: Vec<InlineCandidate> = Vec::new();
    let pure_set = pure_compute_fn_set();
    let mut i: usize = 0;
    while i < graph.nodes.len()
        invariant
            calls_wf(graph),
            pure_set@ == pure_ids(),
            i <= graph.nodes@.len(),
            candidates@ == inline_sites(graph, i as int),
        decreases graph.nodes@.len() - i,
    {
        let nid = NodeId(i as u32);
        if graph.nodes[i].compute_fn.0 == CF_CALL_LAUNCH && !graph.meta[i].tail_call {
            if let Some(callee) = graph.meta[i].call_target {
                assert(graph.meta@[i as int].call_target is Some);
                assert(looks_at_callee(graph, i as int));
                let ok: bool = match look_at_callee(graph, callee, &pure_set) {
                    Some(b) => b,
                    None => false,
                };
                if ok {
                    let func = graph.find_function_sg_for_node(nid);
                    let inner = graph.find_innermost_sg_for_node(nid);
                    proof {
                        lemma_function_sg(graph, nid, func);
                        lemma_innermost_sg(graph, nid, inner);
                    }
                    if let Some(f) = func {
                        let same = match inner {
                            Some(x) => x == f,
                            None => false,
                        };
                        if same {
                            proof {
                                lemma_function_sg_exists(graph, nid, f);
                            }
                            let range = graph.subgraphs[f.0 as usize].node_range;
                            if ids_in_range(graph.inputs(i), range) {
                                candidates.push(
                                    InlineCandidate {
                                        call_node: nid,
                                        callee_sg: callee,
                                        caller_func_sg: f,
                                    },
                                );
                            }
                        }
                    }
                }
            }
        }
        i = i + 1;
    }
    candidates
}

proof fn lemma_function_sg_exists(g: &DataFlowGraph, node: NodeId, f: SubGraphId)
    requires
        g.function_sg_of(node, Some(f)),
    ensures
        f.0 < g.subgraphs@.len(),
{
}

// ---- inlining one call -----------------------------------------------------

/// First node of the body behind the parameters.
pub open spec fn body_lo(a: &DataFlowGraph, c: InlineCandidate) -> int {
    a.subgraphs@[c.callee_sg.0 as int].node_range.0.0
        + a.subgraphs@[c.callee_sg.0 as int].param_count
}

/// Number of body nodes behind the parameters.
pub open spec fn body_len(a: &DataFlowGraph, c: InlineCandidate) -> nat {
    let hi = a.subgraphs@[c.callee_sg.0 as int].node_range.1.0 as int;
    if body_lo(a, c) < hi {
        (hi - body_lo(a, c)) as nat
    } else {
        0
    }
}

/// What stands in the caller for a node of the callee: a clone for a body
/// node, the argument for a parameter that has one.
pub open spec fn inline_image(a: &DataFlowGraph, c: InlineCandidate, x: NodeId) -> NodeId {
    let sg = a.subgraphs@[c.callee_sg.0 as int];
    let args = a.inputs_of(c.call_node.0 as int);
    let k = x.0 - sg.node_range.0.0;
    if body_lo(a, c) <= x.0 < body_lo(a, c) + body_len(a, c) {
        NodeId((a.nodes@.len() + (x.0 - body_lo(a, c))) as u32)
    } else if 0 <= k < sg.param_count && k < args.len() {
        args[k]
    } else {
        x
    }
}

pub open spec fn inline_images(a: &DataFlowGraph, c: InlineCandidate, ids: Seq<NodeId>) -> Seq<NodeId> {
    Seq::new(ids.len(), |k: int| inline_image(a, c, ids[k]))
}

/// The inputs of the first `k` clones, one after the other.
pub open spec fn clone_inputs(a: &DataFlowGraph, c: InlineCandidate, k: int) -> Seq<NodeId>
    decreases k,
{
    if k <= 0 {
        Seq::empty()
    } else {
        clone_inputs(a, c, k - 1) + inline_images(a, c, a.inputs_of(body_lo(a, c) + k - 1))
    }
}

/// The inputs of the sequence node: the call's effect input where it has one
/// inside the caller, then the return value.
pub open spec fn sequence_inputs(a: &DataFlowGraph, c: InlineCandidate) -> Seq<NodeId> {
    let sg = a.subgraphs@[c.callee_sg.0 as int];
    let args = a.inputs_of(c.call_node.0 as int);
    let range = a.subgraphs@[c.caller_func_sg.0 as int].node_range;
    let ret = seq![inline_image(a, c, sg.return_node)];
    if args.len() > sg.param_count && in_range(range, args[sg.param_count as int].0 as int) {
        seq![args[sg.param_count as int]] + ret
    } else {
        ret
    }
}

/// `b` is `a` after the call is inlined.
pub open spec fn inlined(a: &DataFlowGraph, b: &DataFlowGraph, c: InlineCandidate) -> bool {
    let n = a.nodes@.len() as int;
    let m = body_len(a, c) as int;
    let call = c.call_node.0 as int;
    let base = a.inputs_pool@.len();
    &&& appended(a, b)
    &&& b.nodes@.len() == n + m
    &&& b.meta@.len() == n + m
    &&& b.inputs_pool@ == a.inputs_pool@ + clone_inputs(a, c, m) + sequence_inputs(a, c)
    &&& forall|k: int| #![trigger b.nodes@[n + k]]
        0 <= k < m ==> b.nodes@[n + k] == (Node {
            inputs_offset: (base + clone_inputs(a, c, k).len()) as u32,
            ..a.nodes@[body_lo(a, c) + k]
        })
    &&& forall|k: int| #![trigger b.meta@[n + k]]
        0 <= k < m ==> b.meta@[n + k] == clone_meta(a.meta@[body_lo(a, c) + k], c.caller_func_sg)
    &&& forall|i: int| #![trigger b.nodes@[i]]
        0 <= i < n ==> b.nodes@[i] == if i == call {
            Node {
                kind: NodeKind::BinOp,
                input_count: sequence_inputs(a, c).len() as u8,
                inputs_offset: (base + clone_inputs(a, c, m).len()) as u32,
                compute_fn: ComputeFnId(CF_SEQ),
            }
        } else {
            a.nodes@[i]
        }
    &&& forall|i: int| #![trigger b.meta@[i]]
        0 <= i < n ==> b.meta@[i] == if i == call {
            NodeMeta { call_target: None, tail_call: false, ..a.meta@[i] }
        } else {
            a.meta@[i]
        }
}

/// The candidate lies in the graph.
pub open spec fn candidate_wf(g: &DataFlowGraph, c: InlineCandidate) -> bool {
    &&& c.call_node.0 < g.nodes@.len()
    &&& c.callee_sg.0 < g.subgraphs@.len()
    &&& c.caller_func_sg.0 < g.subgraphs@.len()
    &&& g.subgraphs@[c.callee_sg.0 as int].node_range.1.0 <= g.nodes@.len()
}

/// Whether what inlining the call adds can be numbered.
pub open spec fn call_fits(g: &DataFlowGraph, c: InlineCandidate) -> bool {
    let m = body_len(g, c) as int;
    &&& g.nodes@.len() + m <= u32::MAX
    &&& g.inputs_pool@.len() + clone_inputs(g, c, m).len() + sequence_inputs(g, c).len() <= u32::MAX
}

/// Whether what inlining the call adds can be numbered.
fn does_call_fit(g: &DataFlowGraph, c: &InlineCandidate) -> (r: bool)
    requires
        g.wf(),
        candidate_wf(g, *c),
    ensures
        r == call_fits(g, *c),
{
    let callee = &g.subgraphs[c.callee_sg.0 as usize];
    let range = callee.node_range;
    let params = callee.param_count;
    let lo: u64 = range.0.0 as u64 + params as u64;
    let len: u64 = if lo < range.1.0 as u64 {
        range.1.0 as u64 - lo
    } else {
        0
    };
    let mut total: u64 = 0;
    let mut k: u64 = 0;
    while k < len
        invariant
            g.wf(),
            candidate_wf(g, *c),
            lo == body_lo(g, *c),
            len == body_len(g, *c),
            k <= len <= u32::MAX,
            total == clone_inputs(g, *c, k as int).len(),
            total <= 255 * k,
        decreases len - k,
    {
        let i: usize = (lo + k) as usize;
        assert(g.nodes@[i as int].inputs_offset + g.nodes@[i as int].input_count <= g.inputs_pool@.len());
        total = total + g.nodes[i].input_count as u64;
        k = k + 1;
    }
    let args = g.inputs(c.call_node.0 as usize);
    let caller = g.subgraphs[c.caller_func_sg.0 as usize].node_range;
    let mut seq_len: u64 = 1;
    if args.len() > params as usize {
        let eff = args[params as usize];
        if eff.0 >= caller.0.0 && eff.0 < caller.1.0 {
            seq_len = 2;
        }
    }
    assert(seq_len == sequence_inputs(g, *c).len());
    g.nodes.len() as u64 + len <= 0xFFFF_FFFF && g.inputs_pool.len() as u64 + total + seq_len <= 0xFFFF_FFFF
}

/// The values that the mapping of callee nodes needs.
struct InlinePlan {
    start: u32,
    params: u32,
    lo: u64,
    len: u32,
    base: u32,
    args: Vec<NodeId>,
}

impl InlinePlan {
    spec fn fits(&self, a: &DataFlowGraph, c: InlineCandidate) -> bool {
        let sg = a.subgraphs@[c.callee_sg.0 as int];
        &&& self.start == sg.node_range.0.0
        &&& self.params == sg.param_count
        &&& self.lo == body_lo(a, c)
        &&& self.len == body_len(a, c)
        &&& self.base == a.nodes@.len()
        &&& self.base + self.len <= u32::MAX
        &&& self.args@ == a.inputs_of(c.call_node.0 as int)
    }

    fn image(&self, x: NodeId, Ghost(a): Ghost<DataFlowGraph>, Ghost(c): Ghost<InlineCandidate>) -> (r:
        NodeId)
        requires
            self.fits(&a, c),
        ensures
            r == inline_image(&a, c, x),
    {
        let at: u64 = x.0 as u64;
        if self.lo <= at && at - self.lo < self.len as u64 {
            return NodeId(self.base + (at - self.lo) as u32);
        }
        if x.0 >= self.start {
            let k = x.0 - self.start;
            if k < self.params && (k as usize) < self.args.len() {
                return self.args[k as usize];
            }
        }
        x
    }
}

proof fn lemma_clone_inputs_len(a: &DataFlowGraph, c: InlineCandidate, k: int)
    requires
        a.wf(),
        0 <= k <= body_len(a, c),
        candidate_wf(a, c),
    ensures
        clone_inputs(a, c, k).len() <= clone_inputs(a, c, body_len(a, c) as int).len(),
    decreases body_len(a, c) - k,
{
    if k < body_len(a, c) {
        lemma_clone_inputs_len(a, c, k + 1);
    }
}

/// Clones the body nodes for the caller.
fn clone_body(graph: &mut DataFlowGraph, c: &InlineCandidate, plan: &InlinePlan)
    requires
        old(graph).wf(),
        candidate_wf(old(graph), *c),
        plan.fits(old(graph), *c),
        old(graph).inputs_pool@.len() + clone_inputs(old(graph), *c, body_len(old(graph), *c) as int).len() <= u32::MAX,
    ensures
        ({
            let a = *old(graph);
            let b = *final(graph);
            let n = a.nodes@.len() as int;
            let m = body_len(&a, *c) as int;
            &&& appended(&a, &b)
            &&& b.wf()
            &&& b.nodes@.len() == n + m
            &&& b.inputs_pool@ == a.inputs_pool@ + clone_inputs(&a, *c, m)
            &&& forall|k: int| #![trigger b.nodes@[n + k]]
                0 <= k < m ==> b.nodes@[n + k] == (Node {
                    inputs_offset: (a.inputs_pool@.len() + clone_inputs(&a, *c, k).len()) as u32,
                    ..a.nodes@[body_lo(&a, *c) + k]
                })
            &&& forall|k: int| #![trigger b.meta@[n + k]]
                0 <= k < m ==> b.meta@[n + k] == clone_meta(
                    a.meta@[body_lo(&a, *c) + k],
                    c.caller_func_sg,
                )
            &&& b.nodes@.take(n) == a.nodes@
            &&& b.meta@.take(n) == a.meta@
        }),
{
    let ghost a = *graph;
    let ghost n = a.nodes@.len() as int;
    let ghost m = body_len(&a, *c) as int;
    let mut k: u32 = 0;
    proof {
        lemma_appended_refl(&a);
        assert(a.nodes@.take(n) =~= a.nodes@);
        assert(a.meta@.take(n) =~= a.meta@);
        assert(a.inputs_pool@ + clone_inputs(&a, *c, 0) =~= a.inputs_pool@);
    }
    while k < plan.len
        invariant
            a.wf(),
            candidate_wf(&a, *c),
            plan.fits(&a, *c),
            a.inputs_pool@.len() + clone_inputs(&a, *c, m).len() <= u32::MAX,
            n == a.nodes@.len(),
            m == body_len(&a, *c) == plan.len,
            k <= plan.len,
            appended(&a, graph),
            graph.wf(),
            graph.nodes@.len() == n + k,
            graph.inputs_pool@ == a.inputs_pool@ + clone_inputs(&a, *c, k as int),
            forall|q: int| #![trigger graph.nodes@[n + q]]
                0 <= q < k ==> graph.nodes@[n + q] == (Node {
                    inputs_offset: (a.inputs_pool@.len() + clone_inputs(&a, *c, q).len()) as u32,
                    ..a.nodes@[body_lo(&a, *c) + q]
                }),
            forall|q: int| #![trigger graph.meta@[n + q]]
                0 <= q < k ==> graph.meta@[n + q] == clone_meta(
                    a.meta@[body_lo(&a, *c) + q],
                    c.caller_func_sg,
                ),
            graph.nodes@.take(n) == a.nodes@,
            graph.meta@.take(n) == a.meta@,
        decreases plan.len - k,
    {
        let src = (plan.lo + k as u64) as usize;
        let ghost before = *graph;
        proof {
            assert(graph.nodes@.take(n)[src as int] == graph.nodes@[src as int]);
            assert(graph.meta@.take(n)[src as int] == graph.meta@[src as int]);
            lemma_clone_inputs_len(&a, *c, k + 1);
            assert(a.nodes@[src as int].inputs_offset + a.nodes@[src as int].input_count
                <= a.inputs_pool@.len());
            assert(graph.inputs_of(src as int) =~= a.inputs_of(src as int));
        }
        let node = graph.nodes[src];
        let mut new_inputs: Vec<NodeId> = Vec::new();
        {
            let inputs = graph.inputs(src);
            let ghost want = inline_images(&a, *c, inputs@);
            let mut j: usize = 0;
            while j < inputs.len()
                invariant
                    plan.fits(&a, *c),
                    want == inline_images(&a, *c, inputs@),
                    j <= inputs@.len(),
                    new_inputs@ == want.take(j as int),
                decreases inputs@.len() - j,
            {
                new_inputs.push(plan.image(inputs[j], Ghost(a), Ghost(*c)));
                assert(new_inputs@ =~= want.take(j + 1));
                j = j + 1;
            }
            assert(new_inputs@ =~= want);
        }
        let id = graph.add_node_raw(node.kind, new_inputs.as_slice(), node.compute_fn);
        let ghost mid = *graph;
        let mut meta = graph.meta[src].clone();
        meta.hoisted = true;
        meta.hoisted_owner = c.caller_func_sg;
        graph.meta.set(id.0 as usize, meta);
        proof {
            assert(graph.inputs_pool@ =~= a.inputs_pool@ + clone_inputs(&a, *c, k + 1));
            assert(graph.nodes@.take(n) =~= before.nodes@.take(n));
            assert(graph.meta@.take(n) =~= before.meta@.take(n));
            assert(appended(&before, graph)) by {
                assert(graph.downstreams@.take(before.downstreams@.len() as int)
                    =~= before.downstreams@);
                assert forall|q: int|
                    before.downstreams@.len() <= q < graph.downstreams@.len() implies (
                #[trigger] graph.downstreams@[q])@.len() == 0 by {
                    assert(graph.downstreams@.last() == graph.downstreams@[q]);
                }
            }
            lemma_appended_trans(&a, &before, graph);
            assert forall|q: int| #![trigger graph.nodes@[n + q]] 0 <= q < k + 1 implies graph.nodes@[n
                + q] == (Node {
                inputs_offset: (a.inputs_pool@.len() + clone_inputs(&a, *c, q).len()) as u32,
                ..a.nodes@[body_lo(&a, *c) + q]
            }) by {
                if q < k {
                    assert(before.nodes@[n + q] == graph.nodes@[n + q]);
                }
            }
            assert forall|q: int| #![trigger graph.meta@[n + q]] 0 <= q < k + 1 implies graph.meta@[n
                + q] == clone_meta(a.meta@[body_lo(&a, *c) + q], c.caller_func_sg) by {
                if q < k {
                    assert(before.meta@[n + q] == graph.meta@[n + q]);
                }
            }
            assert forall|q: int| #![trigger graph.nodes@[q]] 0 <= q < graph.nodes@.len() implies graph.nodes@[q].inputs_offset
                + graph.nodes@[q].input_count <= graph.inputs_pool@.len() by {
                if q < before.nodes@.len() {
                    assert(before.nodes@[q].inputs_offset + before.nodes@[q].input_count
                        <= before.inputs_pool@.len());
                }
            }
        }
        k = k + 1;
    }
}

/// Inlines one call.
pub fn inline_call(graph: &mut DataFlowGraph, ctx: &mut OptimizerContext, candidate: &InlineCandidate)
    requires
        old(graph).wf(),
        candidate_wf(old(graph), *candidate),
        call_fits(old(graph), *candidate),
    ensures
        inlined(old(graph), final(graph), *candidate),
        final(graph).wf(),
        *final(ctx) == (OptimizerContext { mutated: true, ..*old(ctx) }),
{
    let ghost a = *graph;
    let ghost c = *candidate;
    let ghost n = a.nodes@.len() as int;
    let ghost m = body_len(&a, c) as int;
    let call = candidate.call_node.0 as usize;
    let callee = &graph.subgraphs[candidate.callee_sg.0 as usize];
    let range = callee.node_range;
    let params = callee.param_count;
    let ret = callee.return_node;
    let lo: u64 = range.0.0 as u64 + params as u64;
    let len: u32 = if lo < range.1.0 as u64 {
        (range.1.0 as u64 - lo) as u32
    } else {
        0
    };
    let mut args: Vec<NodeId> = Vec::new();
    {
        let inputs = graph.inputs(call);
        let mut j: usize = 0;
        while j < inputs.len()
            invariant
                j <= inputs@.len(),
                args@ == inputs@.take(j as int),
            decreases inputs@.len() - j,
        {
            args.push(inputs[j]);
            assert(args@ =~= inputs@.take(j + 1));
            j = j + 1;
        }
        assert(args@ =~= a.inputs_of(call as int));
    }
    let plan = InlinePlan {
        start: range.0.0,
        params: params as u32,
        lo,
        len,
        base: graph.nodes.len() as u32,
        args,
    };
    let caller_range = graph.subgraphs[candidate.caller_func_sg.0 as usize].node_range;
    let mut seq_inputs: Vec<NodeId> = Vec::new();
    if plan.args.len() > params as usize {
        let eff = plan.args[params as usize];
        if eff.0 >= caller_range.0.0 && eff.0 < caller_range.1.0 {
            seq_inputs.push(eff);
        }
    }
    let mapped_return = plan.image(ret, Ghost(a), Ghost(c));
    seq_inputs.push(mapped_return);
    assert(seq_inputs@ =~= sequence_inputs(&a, c));
    clone_body(graph, candidate, &plan);
    let ghost b = *graph;
    let offset = graph.inputs_pool.push(seq_inputs.as_slice());
    graph.nodes.set(
        call,
        Node {
            kind: NodeKind::BinOp,
            input_count: seq_inputs.len() as u8,
            inputs_offset: offset,
            compute_fn: ComputeFnId(CF_SEQ),
        },
    );
    let mut meta = graph.meta[call].clone();
    meta.call_target = None;
    meta.tail_call = false;
    graph.meta.set(call, meta);
    ctx.mutated = true;
    proof {
        assert forall|i: int| #![trigger graph.nodes@[i]] 0 <= i < n implies graph.nodes@[i] == if i
            == call {
            Node {
                kind: NodeKind::BinOp,
                input_count: sequence_inputs(&a, c).len() as u8,
                inputs_offset: (a.inputs_pool@.len() + clone_inputs(&a, c, m).len()) as u32,
                compute_fn: ComputeFnId(CF_SEQ),
            }
        } else {
            a.nodes@[i]
        } by {
            assert(b.nodes@.take(n)[i] == b.nodes@[i]);
        }
        assert forall|i: int| #![trigger graph.meta@[i]] 0 <= i < n implies graph.meta@[i] == if i
            == call {
            NodeMeta { call_target: None, tail_call: false, ..a.meta@[i] }
        } else {
            a.meta@[i]
        } by {
            assert(b.meta@.take(n)[i] == b.meta@[i]);
        }
        assert forall|k: int| #![trigger graph.nodes@[n + k]] 0 <= k < m implies graph.nodes@[n + k]
            == (Node {
            inputs_offset: (a.inputs_pool@.len() + clone_inputs(&a, c, k).len()) as u32,
            ..a.nodes@[body_lo(&a, c) + k]
        }) by {
            assert(graph.nodes@[n + k] == b.nodes@[n + k]);
        }
        assert forall|k: int| #![trigger graph.meta@[n + k]] 0 <= k < m implies graph.meta@[n + k]
            == clone_meta(a.meta@[body_lo(&a, c) + k], c.caller_func_sg) by {
            assert(graph.meta@[n + k] == b.meta@[n + k]);
        }
        assert forall|q: int| #![trigger graph.nodes@[q]] 0 <= q < graph.nodes@.len() implies graph.nodes@[q].inputs_offset
            + graph.nodes@[q].input_count <= graph.inputs_pool@.len() by {
            if q != call {
                assert(b.nodes@[q].inputs_offset + b.nodes@[q].input_count
                    <= b.inputs_pool@.len());
            }
        }
        assert(graph.inputs_pool@ =~= a.inputs_pool@ + clone_inputs(&a, c, m) + sequence_inputs(
            &a,
            c,
        ));
    }
}

// ---- the pass --------------------------------------------------------------

/// The calls that are inlined under a limit: the first ones.
pub open spec fn limited_sites(g: &DataFlowGraph, limit: int) -> Seq<InlineCandidate> {
    let all = inline_sites(g, g.nodes@.len() as int);
    if limit < all.len() {
        all.take(limit)
    } else {
        all
    }
}

/// The graphs run from the first to the last, call by call.
pub open spec fn inline_chain(gs: Seq<DataFlowGraph>, sites: Seq<InlineCandidate>) -> bool {
    &&& gs.len() == sites.len() + 1
    &&& forall|k: int|
        0 <= k < sites.len() ==> #[trigger] inlined(&gs[k], &gs[k + 1], sites[k])
}

proof fn lemma_sites_wf(g: &DataFlowGraph, n: int, k: int)
    requires
        calls_wf(g),
        0 <= n <= g.nodes@.len(),
        0 <= k < inline_sites(g, n).len(),
    ensures
        ({
            let c = inline_sites(g, n)[k];
            &&& c.call_node.0 < g.nodes@.len()
            &&& c.callee_sg.0 < g.subgraphs@.len()
            &&& c.caller_func_sg.0 < g.subgraphs@.len()
            &&& g.subgraphs@[c.callee_sg.0 as int].node_range.0.0
                < g.subgraphs@[c.callee_sg.0 as int].node_range.1.0
            &&& g.subgraphs@[c.callee_sg.0 as int].node_range.1.0 <= g.nodes@.len()
            &&& range_size(g.subgraphs@[c.callee_sg.0 as int].node_range) <= MAX_INLINE_NODES
        }),
    decreases n,
{
    let prev = inline_sites(g, n - 1);
    if k < prev.len() {
        lemma_sites_wf(g, n - 1, k);
    } else {
        let i = n - 1;
        reveal(callee_wf);
        assert(inline_site(g, i));
        assert(g.meta@[i].call_target is Some && looks_at_callee(g, i));
        let f = function_sg(g, NodeId(i as u32));
        lemma_function_sg_total(g, NodeId(i as u32));
        assert(g.function_sg_of(NodeId(i as u32), f));
    }
}

/// Every node has a function subgraph or provably none.
proof fn lemma_function_sg_total(g: &DataFlowGraph, node: NodeId)
    requires
        g.subgraphs@.len() <= u32::MAX,
    ensures
        g.function_sg_of(node, function_sg(g, node)),
{
    if exists|i: int| 0 <= i < g.subgraphs@.len() && #[trigger] g.holds_outside_loops(node)(i) {
        let r = lemma_largest_exists(g, g.holds_outside_loops(node), g.subgraphs@.len() as int);
        assert(g.function_sg_of(node, r));
    } else {
        let r = lemma_largest_exists(g, g.holds(node), g.subgraphs@.len() as int);
        assert(g.function_sg_of(node, r));
    }
}

proof fn lemma_largest_exists(g: &DataFlowGraph, wanted: spec_fn(int) -> bool, n: int) -> (r: Option<
    SubGraphId,
>)
    requires
        0 <= n <= g.subgraphs@.len() <= u32::MAX,
    ensures
        match r {
            None => forall|i: int| 0 <= i < n ==> !#[trigger] wanted(i),
            Some(b) => b.0 < n && wanted(b.0 as int) && forall|i: int|
                0 <= i < n && #[trigger] wanted(i) ==> {
                    let x = range_size(g.subgraphs@[b.0 as int].node_range);
                    let y = range_size(g.subgraphs@[i].node_range);
                    x > y || x == y && b.0 <= i
                },
        },
    decreases n,
{
    if n == 0 {
        None
    } else {
        let prev = lemma_largest_exists(g, wanted, n - 1);
        if !wanted(n - 1) {
            prev
        } else {
            match prev {
                None => Some(SubGraphId((n - 1) as u32)),
                Some(b) => if range_size(g.subgraphs@[b.0 as int].node_range) < range_size(
                    g.subgraphs@[n - 1].node_range,
                ) {
                    Some(SubGraphId((n - 1) as u32))
                } else {
                    prev
                },
            }
        }
    }
}

/// Whether one of the calls adds more than can be numbered, those before it
/// inlined.
#[verifier::opaque]
pub open spec fn inline_overflows(g: DataFlowGraph, sites: Seq<InlineCandidate>) -> bool {
    exists|gs: Seq<DataFlowGraph>, k: int|
        0 <= k < sites.len() && #[trigger] inline_chain(gs, sites.take(k)) && gs[0] == g && !(#[trigger] call_fits(
            &gs[k],
            sites[k],
        ))
}

/// Inlines the calls of small pure functions, at most `limit` of them. Stops
/// before a call that adds more than can be numbered; tells whether it came to
/// the end.
pub fn pass_inline(graph: &mut DataFlowGraph, ctx: &mut OptimizerContext, limit: usize) -> (done: bool)
    requires
        calls_wf(old(graph)),
    ensures
        done ==> ({
            let sites = limited_sites(old(graph), limit as int);
            &&& exists|gs: Seq<DataFlowGraph>| #[trigger]
                inline_chain(gs, sites) && gs[0] == *old(graph) && gs[gs.len() - 1] == *final(graph)
            &&& *final(ctx) == (OptimizerContext {
                mutated: old(ctx).mutated || sites.len() > 0,
                ..*old(ctx)
            })
        }),
        !done ==> inline_overflows(*old(graph), limited_sites(old(graph), limit as int)),
        done && limited_sites(old(graph), limit as int).len() == 0 ==> *final(graph) == *old(graph),
        final(graph).wf(),
        final(graph).subgraphs@ == old(graph).subgraphs@,
        final(graph).nodes@.len() >= old(graph).nodes@.len(),
{
    let candidates = collect_inline_candidates(graph);
    let ghost first = *graph;
    let ghost all = inline_sites(&first, first.nodes@.len() as int);
    let count: usize = if limit < candidates.len() {
        limit
    } else {
        candidates.len()
    };
    let ghost sites = all.take(count as int);
    let ghost mut gs = seq![first];
    let mut k: usize = 0;
    assert(sites =~= limited_sites(&first, limit as int));
    while k < count
        invariant
            first == *old(graph),
            calls_wf(&first),
            candidates@ == all,
            all == inline_sites(&first, first.nodes@.len() as int),
            count <= all.len(),
            sites == all.take(count as int),
            sites == limited_sites(&first, limit as int),
            k <= count,
            graph.wf(),
            graph.subgraphs@ == first.subgraphs@,
            first.nodes@.len() <= graph.nodes@.len(),
            *ctx == (OptimizerContext { mutated: old(ctx).mutated || k > 0, ..*old(ctx) }),
            gs.len() == k + 1,
            gs[0] == first,
            gs[k as int] == *graph,
            forall|q: int|
                0 <= q < k ==> #[trigger] inlined(&gs[q], &gs[q + 1], sites[q]),
        decreases count - k,
    {
        let ghost gs0 = gs;
        let candidate = candidates[k];
        proof {
            lemma_sites_wf(&first, first.nodes@.len() as int, k as int);
        }
        if !does_call_fit(graph, &candidate) {
            proof {
                reveal(inline_overflows);
                let part = sites.take(k as int);
                assert forall|q: int| 0 <= q < part.len() implies #[trigger] inlined(
                    &gs[q],
                    &gs[q + 1],
                    part[q],
                ) by {
                    assert(part[q] == sites[q]);
                }
                assert(inline_chain(gs, part));
                assert(!call_fits(&gs[k as int], sites[k as int]));
            }
            return false;
        }
        inline_call(graph, ctx, &candidate);
        proof {
            gs = gs0.push(*graph);
            assert forall|q: int| 0 <= q < k + 1 implies #[trigger] inlined(
                &gs[q],
                &gs[q + 1],
                sites[q],
            ) by {
                assert(gs[q] == gs0[q]);
                if q < k {
                    assert(gs[q + 1] == gs0[q + 1]);
                    assert(inlined(&gs0[q], &gs0[q + 1], sites[q]));
                }
            }
        }
        k = k + 1;
    }
    proof {
        assert(inline_chain(gs, limited_sites(&first, limit as int)));
    }
    true
}

// ---- laws ------------------------------------------------------------------

/// Only calls of pure functions are inlined: every node of the body is pure
/// or a parameter, and none of them launches anything.
pub proof fn law_inlined_bodies_are_pure(g: &DataFlowGraph, i: int, k: int)
    requires
        inline_site(g, i),
        in_range(g.subgraphs@[(g.meta@[i].call_target->0).0 as int].node_range, k),
    ensures
        !launches(g.nodes@[k].kind),
        g.nodes@[k].compute_fn.0 == CF_NOOP || pure_ids().contains(g.nodes@[k].compute_fn.0),
{
    assert(safe_in_body(
        g,
        g.subgraphs@[(g.meta@[i].call_target->0).0 as int].node_range,
        k,
    )) by {
        assert(g.nodes@[k] == g.nodes@[k]);
    }
}

/// An inlined call is no longer a call, and everything before it in the
/// graph but the call node is as it was.
pub proof fn law_inlining_replaces_only_the_call(
    a: &DataFlowGraph,
    b: &DataFlowGraph,
    c: InlineCandidate,
    i: int,
)
    requires
        inlined(a, b, c),
        0 <= i < a.nodes@.len(),
    ensures
        i != c.call_node.0 ==> b.nodes@[i] == a.nodes@[i] && b.meta@[i] == a.meta@[i],
        i == c.call_node.0 ==> b.nodes@[i].compute_fn.0 == CF_SEQ && b.meta@[i].call_target is None
            && b.nodes@[i].kind == NodeKind::BinOp,
        b.subgraphs@ == a.subgraphs@,
{
    assert(b.nodes@[i] == b.nodes@[i]);
    assert(b.meta@[i] == b.meta@[i]);
}

proof fn lemma_clone_inputs_prefix(a: &DataFlowGraph, c: InlineCandidate, k: int, m: int)
    requires
        0 <= k <= m,
    ensures
        clone_inputs(a, c, k).len() <= clone_inputs(a, c, m).len(),
        clone_inputs(a, c, m).take(clone_inputs(a, c, k).len() as int) == clone_inputs(a, c, k),
    decreases m,
{
    let x = clone_inputs(a, c, k);
    let y = clone_inputs(a, c, m);
    if k < m {
        lemma_clone_inputs_prefix(a, c, k, m - 1);
        let z = clone_inputs(a, c, m - 1);
        assert(y.take(x.len() as int) =~= z.take(x.len() as int));
    } else {
        assert(y.take(x.len() as int) =~= x);
    }
}

/// The clone of a body node does what the body node does, on what stands for
/// its inputs: the i-th argument of the call for the i-th parameter, the clone
/// of a body node for that node, and anything else as it is.
pub proof fn law_clones_work_on_the_arguments(
    a: &DataFlowGraph,
    b: &DataFlowGraph,
    c: InlineCandidate,
    src: int,
    j: int,
)
    requires
        a.wf(),
        candidate_wf(a, c),
        call_fits(a, c),
        inlined(a, b, c),
        ({
            let sg = a.subgraphs@[c.callee_sg.0 as int];
            sg.node_range.0.0 + sg.param_count <= src < sg.node_range.1.0
        }),
        0 <= j < a.inputs_of(src).len(),
    ensures
        ({
            let sg = a.subgraphs@[c.callee_sg.0 as int];
            let first = sg.node_range.0.0 + sg.param_count;
            let new = a.nodes@.len() + (src - first);
            let args = a.inputs_of(c.call_node.0 as int);
            let x = a.inputs_of(src)[j].0;
            let y = b.inputs_of(new)[j].0;
            &&& 0 <= new < b.nodes@.len()
            &&& b.nodes@[new].kind == a.nodes@[src].kind
            &&& b.nodes@[new].compute_fn == a.nodes@[src].compute_fn
            &&& b.meta@[new].const_value == a.meta@[src].const_value
            &&& b.meta@[new].hoisted && b.meta@[new].hoisted_owner == c.caller_func_sg
            &&& b.inputs_of(new).len() == a.inputs_of(src).len()
            &&& first <= x < sg.node_range.1.0 ==> y == a.nodes@.len() + (x - first)
            &&& forall|i: int|
                0 <= i < sg.param_count && i < args.len() && x == sg.node_range.0.0 + i && (x < first)
                    ==> y == (#[trigger] args[i]).0
            &&& sg.node_range.0.0 + args.len() <= x < first ==> y == x
            &&& !(sg.node_range.0.0 <= x < sg.node_range.1.0) && !(sg.node_range.0.0 <= x < first) ==> y == x
        }),
{
    let sg = a.subgraphs@[c.callee_sg.0 as int];
    let n = a.nodes@.len() as int;
    let m = body_len(a, c) as int;
    let k = src - body_lo(a, c);
    let base = a.inputs_pool@.len() as int;
    assert(a.nodes@[src].inputs_offset + a.nodes@[src].input_count <= a.inputs_pool@.len());
    lemma_clone_inputs_prefix(a, c, k, m);
    lemma_clone_inputs_prefix(a, c, k + 1, m);
    let all = clone_inputs(a, c, m);
    let p = clone_inputs(a, c, k);
    let q = clone_inputs(a, c, k + 1);
    let images = inline_images(a, c, a.inputs_of(src));
    assert(q == p + images);
    assert(b.nodes@[n + k] == b.nodes@[n + k]);
    assert(b.meta@[n + k] == b.meta@[n + k]);
    assert(b.inputs_of(n + k) =~= images) by {
        assert forall|t: int| 0 <= t < images.len() implies b.inputs_of(n + k)[t] == images[t] by {
            assert(b.inputs_of(n + k)[t] == b.inputs_pool@[base + p.len() + t]);
            assert(all.take(q.len() as int)[p.len() + t] == q[p.len() + t]);
        }
    }
}

/// The call node becomes a sequence that ends with what stands for the returned
/// node: the clone of it, or the argument where a parameter is returned. In
/// front of it stands at most the input behind the arguments. No other node's
/// inputs change.
pub proof fn law_inlined_call_gives_the_returned_value(
    a: &DataFlowGraph,
    b: &DataFlowGraph,
    c: InlineCandidate,
    i: int,
)
    requires
        a.wf(),
        candidate_wf(a, c),
        call_fits(a, c),
        inlined(a, b, c),
        0 <= i < a.nodes@.len(),
    ensures
        i != c.call_node.0 ==> b.inputs_of(i) == a.inputs_of(i),
        ({
            let sg = a.subgraphs@[c.callee_sg.0 as int];
            let first = sg.node_range.0.0 + sg.param_count;
            let args = a.inputs_of(c.call_node.0 as int);
            let ins = b.inputs_of(c.call_node.0 as int);
            let x = sg.return_node.0;
            &&& 1 <= ins.len() <= 2
            &&& first <= x < sg.node_range.1.0 ==> ins.last().0 == a.nodes@.len() + (x - first)
            &&& forall|p: int|
                0 <= p < sg.param_count && p < args.len() && x == sg.node_range.0.0 + p && x < first ==> ins.last()
                    == #[trigger] args[p]
            &&& ins.len() == 2 <==> args.len() > sg.param_count && in_range(
                a.subgraphs@[c.caller_func_sg.0 as int].node_range,
                args[sg.param_count as int].0 as int,
            )
            &&& ins.len() == 2 ==> ins[0] == args[sg.param_count as int]
        }),
{
    let m = body_len(a, c) as int;
    let base = a.inputs_pool@.len() as int;
    let call = c.call_node.0 as int;
    let q = sequence_inputs(a, c);
    assert(b.nodes@[i] == b.nodes@[i]);
    assert(b.nodes@[call] == b.nodes@[call]);
    assert(a.nodes@[i].inputs_offset + a.nodes@[i].input_count <= a.inputs_pool@.len());
    if i != call {
        assert(b.inputs_of(i) =~= a.inputs_of(i));
    }
    assert(b.inputs_of(call) =~= q);
}

proof fn lemma_sites_are_listed(g: &DataFlowGraph, n: int, c: InlineCandidate)
    requires
        0 <= n <= g.nodes@.len() <= u32::MAX,
    ensures
        inline_sites(g, n).contains(c) <==> c.call_node.0 < n && inline_site(g, c.call_node.0 as int) && Some(
            c.callee_sg,
        ) == g.meta@[c.call_node.0 as int].call_target && c.caller_func_sg == function_sg(g, c.call_node)->0,
    decreases n,
{
    if n > 0 {
        lemma_sites_are_listed(g, n - 1, c);
        let prev = inline_sites(g, n - 1);
        if inline_site(g, n - 1) {
            let d = InlineCandidate {
                call_node: NodeId((n - 1) as u32),
                callee_sg: g.meta@[n - 1].call_target->0,
                caller_func_sg: function_sg(g, NodeId((n - 1) as u32))->0,
            };
            let all = prev.push(d);
            assert(all[prev.len() as int] == d);
            if prev.contains(c) {
                let k = choose|k: int| 0 <= k < prev.len() && prev[k] == c;
                assert(all[k] == c);
            }
            if all.contains(c) {
                let k = choose|k: int| 0 <= k < all.len() && all[k] == c;
                if k < prev.len() {
                    assert(prev[k] == c);
                }
            }
        }
    }
}

/// What is inlined: a launched call with a target, not in tail position, that
/// lies directly in a function and takes its inputs from it. The function that it
/// calls does not suspend, captures nothing, has no more nodes than the limit,
/// returns one of them, and all its nodes take their inputs from it.
pub proof fn law_inlined_calls_are_plain(g: &DataFlowGraph, c: InlineCandidate)
    requires
        g.nodes@.len() <= u32::MAX,
        inline_sites(g, g.nodes@.len() as int).contains(c),
    ensures
        ({
            let i = c.call_node.0 as int;
            let callee = g.subgraphs@[c.callee_sg.0 as int];
            let caller = g.subgraphs@[c.caller_func_sg.0 as int];
            let lo = callee.node_range.0.0;
            let hi = callee.node_range.1.0;
            &&& i < g.nodes@.len()
            &&& g.nodes@[i].compute_fn.0 == CF_CALL_LAUNCH
            &&& !g.meta@[i].tail_call
            &&& g.meta@[i].call_target == Some(c.callee_sg)
            &&& !callee.has_suspend
            &&& callee.upvalue_count == 0
            &&& hi - lo <= MAX_INLINE_NODES
            &&& lo <= callee.return_node.0 < hi
            &&& innermost_sg(g, c.call_node) == Some(c.caller_func_sg)
            &&& forall|j: int| #![trigger g.inputs_of(i)[j]]
                0 <= j < g.inputs_of(i).len() ==> caller.node_range.0.0 <= g.inputs_of(i)[j].0 < caller.node_range.1.0
            &&& forall|x: int, j: int| #![trigger g.inputs_of(x)[j]]
                lo <= x < hi && 0 <= j < g.inputs_of(x).len() ==> lo <= g.inputs_of(x)[j].0 < hi
        }),
{
    lemma_sites_are_listed(g, g.nodes@.len() as int, c);
    let i = c.call_node.0 as int;
    assert(NodeId(i as u32) == c.call_node);
    let callee = g.subgraphs@[c.callee_sg.0 as int];
    let caller = g.subgraphs@[c.caller_func_sg.0 as int];
    assert(inlinable(g, callee));
    assert forall|j: int| #![trigger g.inputs_of(i)[j]] 0 <= j < g.inputs_of(i).len() implies caller.node_range.0.0
        <= g.inputs_of(i)[j].0 < caller.node_range.1.0 by {
        assert(in_range(caller.node_range, g.inputs_of(i)[j].0 as int));
    }
    assert forall|x: int, j: int| #![trigger g.inputs_of(x)[j]]
        callee.node_range.0.0 <= x < callee.node_range.1.0 && 0 <= j < g.inputs_of(x).len() implies callee.node_range.0.0
        <= g.inputs_of(x)[j].0 < callee.node_range.1.0 by {
        assert(in_range(callee.node_range, x));
        assert(safe_in_body(g, callee.node_range, x)) by {
            let node = g.nodes@[x];
        }
        assert(in_range(callee.node_range, g.inputs_of(x)[j].0 as int));
    }
}

/// Every call of that kind is inlined.
pub proof fn law_plain_calls_are_inlined(g: &DataFlowGraph, i: u32, t: SubGraphId, f: SubGraphId)
    requires
        i < g.nodes@.len() <= u32::MAX,
        g.nodes@[i as int].compute_fn.0 == CF_CALL_LAUNCH,
        !g.meta@[i as int].tail_call,
        g.meta@[i as int].call_target == Some(t),
        !g.subgraphs@[t.0 as int].has_suspend,
        g.subgraphs@[t.0 as int].upvalue_count == 0,
        range_size(g.subgraphs@[t.0 as int].node_range) <= MAX_INLINE_NODES,
        in_range(g.subgraphs@[t.0 as int].node_range, g.subgraphs@[t.0 as int].return_node.0 as int),
        forall|x: int| #![trigger g.nodes@[x]]
            in_range(g.subgraphs@[t.0 as int].node_range, x) ==> {
                let kind = g.nodes@[x].kind;
                &&& kind != NodeKind::Gate && kind != NodeKind::Call && kind != NodeKind::Await && kind
                    != NodeKind::EventSource
                &&& g.nodes@[x].compute_fn.0 == CF_NOOP || pure_ids().contains(g.nodes@[x].compute_fn.0)
                &&& forall|j: int| #![trigger g.inputs_of(x)[j]]
                    0 <= j < g.inputs_of(x).len() ==> in_range(
                        g.subgraphs@[t.0 as int].node_range,
                        g.inputs_of(x)[j].0 as int,
                    )
            },
        function_sg(g, NodeId(i)) == Some(f),
        innermost_sg(g, NodeId(i)) == Some(f),
        forall|j: int| #![trigger g.inputs_of(i as int)[j]]
            0 <= j < g.inputs_of(i as int).len() ==> in_range(
                g.subgraphs@[f.0 as int].node_range,
                g.inputs_of(i as int)[j].0 as int,
            ),
    ensures
        inline_sites(g, g.nodes@.len() as int).contains(
            InlineCandidate { call_node: NodeId(i), callee_sg: t, caller_func_sg: f },
        ),
{
    let callee = g.subgraphs@[t.0 as int];
    assert(inlinable(g, callee)) by {
        assert forall|x: int| #![trigger g.nodes@[x]] in_range(callee.node_range, x) implies safe_in_body(
            g,
            callee.node_range,
            x,
        ) by {
            assert forall|j: int| 0 <= j < g.inputs_of(x).len() implies in_range(
                callee.node_range,
                (#[trigger] g.inputs_of(x)[j]).0 as int,
            ) by {
            }
        }
    }
    lemma_sites_are_listed(
        g,
        g.nodes@.len() as int,
        InlineCandidate { call_node: NodeId(i), callee_sg: t, caller_func_sg: f },
    );
}

/// As many of the calls are inlined as the limit allows, the first ones first.
pub proof fn law_the_first_calls_are_inlined(g: &DataFlowGraph, limit: int)
    requires
        limit >= 0,
    ensures
        ({
            let all = inline_sites(g, g.nodes@.len() as int);
            let some = limited_sites(g, limit);
            &&& some.len() <= limit
            &&& all.len() <= limit ==> some == all
            &&& all.len() > limit ==> some.len() == limit
            &&& forall|k: int| 0 <= k < some.len() ==> #[trigger] some[k] == all[k]
        }),
{
}

} // verus!
