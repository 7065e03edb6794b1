//! Loop unrolling: a short counting loop is replaced by clones of its body,
//! one per iteration, each with the loop variable as a constant.

use vstd::prelude::*;

use crate::arith::{const_of, int_of, IntBits, IntTy};
use crate::analysis::report::AnalysisReport;
use crate::fx::{no_ids, IdMap};
use crate::ir::compute_fns::CF_NOOP;
use crate::ir::graph::{in_range, range_size, DataFlowGraph};
use crate::ir::meta::NodeMeta;
use crate::ir::redirect::lemma_insert_acyclic;
use crate::ir::types::{ComputeFnId, ConstValue, Node, NodeId, NodeKind, SubGraphId};
use crate::pass::cloning::{
    appended, clone_all, clone_node, law_clones_do_what_their_sources_do, lemma_appended_refl,
    lemma_appended_trans, lemma_clone_inputs_lie_in_the_pool, lemma_cloning_appends, state_inputs, state_of, CloneState,
};
use crate::pass::context::OptimizerContext;
use crate::pass::loops::UnrollInfo;

verus! {

/// A constant of the type of `like` with the given value, wrapped; of
/// `i64` where it is no integer.
pub open spec fn const_like(like: ConstValue, val: int) -> ConstValue {
    match int_of(like) {
        Some((ty, _)) => const_of(ty, ty.wrap(val)),
        None => const_of(IntTy::I64, IntTy::I64.wrap(val)),
    }
}

/// A constant of the type of `like` with the given value.
pub fn make_const_value(like: &ConstValue, val: i128) -> (r: ConstValue)
    ensures
        r == const_like(*like, val as int),
{
    let ty = match IntBits::from_const(*like) {
        Some(b) => b.ty,
        None => IntTy::I64,
    };
    let bits: u128 = if val >= 0 {
        val as u128
    } else {
        u128::MAX - (-(val + 1)) as u128
    };
    proof {
        let big: int = u128::MAX + 1;
        if val >= 0 {
            vstd::arithmetic::div_mod::lemma_fundamental_div_mod_converse(
                val as int,
                big,
                0,
                val as int,
            );
        } else {
            vstd::arithmetic::div_mod::lemma_fundamental_div_mod_converse(
                val as int,
                big,
                -1,
                val + big,
            );
        }
        crate::arith::lemma_residue(ty, val as int);
    }
    ty.truncate(bits).to_const()
}

/// The ids of [lo, hi).
pub open spec fn span_ids(lo: int, hi: int) -> Seq<int> {
    Seq::new(
        if lo < hi {
            (hi - lo) as nat
        } else {
            0
        },
        |k: int| lo + k,
    )
}

/// The state after the constant of one iteration has been appended.
pub open spec fn iteration_const(st: CloneState, info: UnrollInfo, owner: SubGraphId, i: int) -> CloneState {
    CloneState {
        nodes: st.nodes.push(
            Node {
                kind: NodeKind::Const,
                input_count: 0,
                inputs_offset: st.pool.len() as u32,
                compute_fn: ComputeFnId(CF_NOOP),
            },
        ),
        pool: st.pool,
        meta: st.meta.push(
            NodeMeta {
                const_value: Some(
                    const_like(info.start_const, info.start_value + info.step * i),
                ),
                hoisted: true,
                hoisted_owner: owner,
                ..NodeMeta::blank()
            },
        ),
        map: no_ids().insert(info.loop_var_node.0, st.nodes.len() as u32),
    }
}

/// The state after the first `n` iterations have been appended: each is a
/// constant for the loop variable and clones of the body behind its two
/// parameters.
pub open spec fn unrolled(
    st: CloneState,
    info: UnrollInfo,
    owner: SubGraphId,
    body: Seq<int>,
    n: int,
) -> CloneState
    decreases n,
{
    if n <= 0 {
        st
    } else {
        clone_all(
            iteration_const(unrolled(st, info, owner, body, n - 1), info, owner, n - 1),
            body,
            owner,
        )
    }
}

/// Whether a node of the body, behind the parameters, uses the iterator.
pub open spec fn uses_iterator(g: &DataFlowGraph, bs: int, be: int) -> bool {
    exists|i: int| #![trigger g.nodes@[i]]
        bs + 2 <= i < be && g.inputs_of(i).contains(NodeId(bs as u32))
}

/// The first gate of [lo, hi).
pub open spec fn first_gate(g: &DataFlowGraph, lo: int, hi: int) -> Option<int>
    decreases hi - lo,
{
    if lo >= hi {
        None
    } else if g.nodes@[lo].kind == NodeKind::Gate {
        Some(lo)
    } else {
        first_gate(g, lo + 1, hi)
    }
}

/// The function for which a loop is unrolled: that of its parent region. None
/// if the loop has no parent, or its body uses the iterator.
pub open spec fn unroll_owner(g: &DataFlowGraph, sg: SubGraphId, info: UnrollInfo) -> Option<
    SubGraphId,
> {
    let body = g.subgraphs@[info.body_sg.0 as int].node_range;
    if uses_iterator(g, body.0.0 as int, body.1.0 as int) {
        None
    } else {
        match enclosing(g, sg) {
            None => None,
            Some(p) => Some(SubGraphId(g.subgraphs@[p.0 as int].function_id)),
        }
    }
}

/// The smallest subgraph that strictly encloses another one.
pub open spec fn enclosing(g: &DataFlowGraph, sg: SubGraphId) -> Option<SubGraphId> {
    choose|r: Option<SubGraphId>| g.smallest_first(g.strictly_encloses(sg), r)
}

pub proof fn lemma_enclosing(g: &DataFlowGraph, sg: SubGraphId, r: Option<SubGraphId>)
    requires
        g.smallest_first(g.strictly_encloses(sg), r),
    ensures
        enclosing(g, sg) == r,
{
    let o = enclosing(g, sg);
    assert(g.smallest_first(g.strictly_encloses(sg), o));
    if o is Some && r is Some {
        assert(g.strictly_encloses(sg)((o->0).0 as int));
        assert(g.strictly_encloses(sg)((r->0).0 as int));
    } else if o is Some {
        assert(g.strictly_encloses(sg)((o->0).0 as int));
    } else if r is Some {
        assert(g.strictly_encloses(sg)((r->0).0 as int));
    }
}

/// Among the first `n` subgraphs there is a smallest one that `wanted` admits,
/// unless it admits none.
proof fn lemma_smallest_exists(g: &DataFlowGraph, wanted: spec_fn(int) -> bool, n: int) -> (r: Option<SubGraphId>)
    requires
        0 <= n <= g.subgraphs@.len() <= u32::MAX,
    ensures
        match r {
            None => forall|i: int| 0 <= i < n ==> !#[trigger] wanted(i),
            Some(b) => {
                &&& b.0 < n
                &&& wanted(b.0 as int)
                &&& forall|i: int|
                    0 <= i < n && #[trigger] wanted(i) ==> {
                        let x = range_size(g.subgraphs@[b.0 as int].node_range);
                        let y = range_size(g.subgraphs@[i].node_range);
                        x < y || x == y && b.0 <= i
                    }
            },
        },
    decreases n,
{
    if n == 0 {
        None
    } else {
        let best = lemma_smallest_exists(g, wanted, n - 1);
        if !wanted(n - 1) {
            best
        } else {
            match best {
                None => Some(SubGraphId((n - 1) as u32)),
                Some(b) => if range_size(g.subgraphs@[n - 1].node_range) < range_size(
                    g.subgraphs@[b.0 as int].node_range,
                ) {
                    Some(SubGraphId((n - 1) as u32))
                } else {
                    best
                },
            }
        }
    }
}

/// Only the subgraphs decide which one encloses another.
proof fn lemma_same_enclosing(a: &DataFlowGraph, b: &DataFlowGraph, sg: SubGraphId)
    requires
        a.subgraphs@ == b.subgraphs@,
        a.subgraphs@.len() <= u32::MAX,
    ensures
        enclosing(a, sg) == enclosing(b, sg),
{
    let n = a.subgraphs@.len() as int;
    let p = a.strictly_encloses(sg);
    let q = b.strictly_encloses(sg);
    let r = lemma_smallest_exists(a, p, n);
    assert forall|i: int| #[trigger] q(i) == p(i) by {}
    assert(a.smallest_first(p, r));
    assert(b.smallest_first(q, r));
    lemma_enclosing(a, sg, r);
    lemma_enclosing(b, sg, r);
}

/// Appending nodes does not change for which function a loop is unrolled.
proof fn lemma_same_owner(a: &DataFlowGraph, b: &DataFlowGraph, sg: SubGraphId, info: UnrollInfo)
    requires
        a.wf(),
        unroll_wf(a, sg, info),
        a.subgraphs@ == b.subgraphs@,
        forall|i: int| 0 <= i < a.nodes@.len() ==> #[trigger] b.nodes@[i] == a.nodes@[i],
        a.inputs_pool@.is_prefix_of(b.inputs_pool@),
    ensures
        enclosing(a, sg) == enclosing(b, sg),
        unroll_owner(a, sg, info) == unroll_owner(b, sg, info),
{
    lemma_same_enclosing(a, b, sg);
    if enclosing(a, sg) is Some {
        let br = a.subgraphs@[info.body_sg.0 as int].node_range;
        assert forall|i: int| br.0.0 + 2 <= i < br.1.0 implies a.inputs_of(i) == b.inputs_of(i) by {
            assert(b.nodes@[i] == a.nodes@[i]);
            assert(a.nodes@[i].inputs_offset + a.nodes@[i].input_count <= a.inputs_pool@.len());
            assert(a.inputs_of(i) =~= b.inputs_of(i));
        }
        let lo = br.0.0 as int;
        let hi = br.1.0 as int;
        assert(uses_iterator(a, lo, hi) == uses_iterator(b, lo, hi)) by {
            if uses_iterator(a, lo, hi) {
                let i = choose|i: int| #![trigger a.nodes@[i]]
                    lo + 2 <= i < hi && a.inputs_of(i).contains(NodeId(lo as u32));
                assert(b.nodes@[i] == a.nodes@[i]);
            }
            if uses_iterator(b, lo, hi) {
                let i = choose|i: int| #![trigger b.nodes@[i]]
                    lo + 2 <= i < hi && b.inputs_of(i).contains(NodeId(lo as u32));
                assert(b.nodes@[i] == a.nodes@[i]);
            }
        }
    }
}

/// Dead nodes and redirects of a round.
pub struct Marks {
    pub dead: Set<u32>,
    pub redirect: Map<u32, u32>,
}

/// The dead nodes and redirects after one loop is unrolled to nodes that end
/// before `end`: the loop's gate stands for the last clone, and everything
/// else of the loop and its body is dead.
pub open spec fn unroll_marks(
    a: &DataFlowGraph,
    m: Marks,
    sg: SubGraphId,
    info: UnrollInfo,
    end: int,
) -> Marks {
    let lr = a.subgraphs@[sg.0 as int].node_range;
    let br = a.subgraphs@[info.body_sg.0 as int].node_range;
    let gate = first_gate(a, lr.0.0 as int, lr.1.0 as int);
    let redirect = if gate is Some && info.trip_count > 0 {
        m.redirect.insert(gate->0 as u32, (end - 1) as u32)
    } else {
        m.redirect
    };
    let dead = Set::new(
        |x: u32|
            m.dead.contains(x) || (gate is Some && info.trip_count == 0 && x == gate->0) || ((
            in_range(lr, x as int) || in_range(br, x as int)) && !redirect.contains_key(x)),
    );
    Marks { dead, redirect }
}

/// `b` is `a` after one loop is unrolled.
pub open spec fn unrolled_loop(
    a: &DataFlowGraph,
    b: &DataFlowGraph,
    m1: Marks,
    m2: Marks,
    sg: SubGraphId,
    info: UnrollInfo,
) -> bool {
    match unroll_owner(a, sg, info) {
        None => *b == *a && m2 == m1,
        Some(owner) => {
            let br = a.subgraphs@[info.body_sg.0 as int].node_range;
            let body = span_ids(br.0.0 + 2, br.1.0 as int);
            let st = unrolled(state_of(a, no_ids()), info, owner, body, info.trip_count as int);
            &&& appended(a, b)
            &&& b.nodes@ == st.nodes
            &&& b.inputs_pool@ == st.pool
            &&& b.meta@ == st.meta
            &&& m2 == unroll_marks(a, m1, sg, info, b.nodes@.len() as int)
        },
    }
}

/// The marks of a context.
pub open spec fn marks_of(ctx: &OptimizerContext) -> Marks {
    Marks { dead: ctx.dead@, redirect: ctx.redirect@ }
}

/// One loop and, as far as they are looked at, its body and its unrolling lie
/// in the graph.
pub open spec fn unroll_wf(g: &DataFlowGraph, sg: SubGraphId, info: UnrollInfo) -> bool {
    &&& sg.0 < g.subgraphs@.len() <= u32::MAX
    &&& range_size(g.subgraphs@[sg.0 as int].node_range) >= 0
    &&& enclosing(g, sg) is Some ==> {
        &&& info.body_sg.0 < g.subgraphs@.len()
        &&& g.subgraphs@[info.body_sg.0 as int].node_range.1.0 <= g.nodes@.len()
        &&& g.subgraphs@[info.body_sg.0 as int].node_range.0.0 + 2 <= u32::MAX
    }
    &&& unroll_owner(g, sg, info) is Some ==> {
        &&& g.subgraphs@[sg.0 as int].node_range.1.0 <= g.nodes@.len()
        &&& values_fit(info)
    }
}

/// All values of the loop variable can be computed.
pub open spec fn values_fit(info: UnrollInfo) -> bool {
    forall|i: int|
        0 <= i < info.trip_count ==> i128::MIN <= info.step * i <= i128::MAX && i128::MIN
            <= info.start_value + #[trigger] (info.step * i) <= i128::MAX
}

/// Number of nodes that unrolling appends.
pub open spec fn unroll_nodes(g: &DataFlowGraph, info: UnrollInfo) -> int {
    let br = g.subgraphs@[info.body_sg.0 as int].node_range;
    info.trip_count * (1 + span_ids(br.0.0 + 2, br.1.0 as int).len())
}

/// Number of inputs of the nodes of [lo, hi).
pub open spec fn span_inputs(g: &DataFlowGraph, lo: int, hi: int) -> nat
    decreases hi - lo,
{
    if lo >= hi {
        0
    } else {
        span_inputs(g, lo, hi - 1) + g.nodes@[hi - 1].input_count as nat
    }
}

/// Number of inputs that unrolling appends.
pub open spec fn unroll_inputs(g: &DataFlowGraph, info: UnrollInfo) -> int {
    let br = g.subgraphs@[info.body_sg.0 as int].node_range;
    info.trip_count * span_inputs(g, br.0.0 + 2, br.1.0 as int)
}

/// Nodes keep their inputs when others are appended.
proof fn lemma_same_span_inputs(a: &DataFlowGraph, b: &DataFlowGraph, lo: int, hi: int)
    requires
        0 <= lo,
        hi <= a.nodes@.len(),
        forall|i: int| 0 <= i < a.nodes@.len() ==> #[trigger] b.nodes@[i] == a.nodes@[i],
    ensures
        span_inputs(a, lo, hi) == span_inputs(b, lo, hi),
    decreases hi - lo,
{
    if lo < hi {
        lemma_same_span_inputs(a, b, lo, hi - 1);
        assert(b.nodes@[hi - 1] == a.nodes@[hi - 1]);
    }
}

/// A part of a span has no more inputs than the span.
pub proof fn lemma_span_inputs_grow(g: &DataFlowGraph, lo: int, mid: int, hi: int)
    requires
        mid <= hi,
    ensures
        span_inputs(g, lo, mid) <= span_inputs(g, lo, hi),
    decreases hi - mid,
{
    if mid < hi {
        lemma_span_inputs_grow(g, lo, mid, hi - 1);
    }
}

/// Whether a node of the body, behind the parameters, uses the iterator.
pub fn body_uses_iterator(graph: &DataFlowGraph, bs: u32, be: u32) -> (r: bool)
    requires
        graph.wf(),
        be <= graph.nodes@.len(),
        bs + 2 <= u32::MAX,
    ensures
        r == uses_iterator(graph, bs as int, be as int),
{
    let param = NodeId(bs);
    let mut i: u32 = bs + 2;
    while i < be
        invariant
            graph.wf(),
            be <= graph.nodes@.len(),
            bs + 2 <= i,
            i <= be || i == bs + 2,
            param == NodeId(bs),
            forall|k: int| #![trigger graph.nodes@[k]]
                bs + 2 <= k < i ==> !graph.inputs_of(k).contains(param),
        decreases be - i,
    {
        let inputs = graph.inputs(i as usize);
        let mut j: usize = 0;
        while j < inputs.len()
            invariant
                inputs@ == graph.inputs_of(i as int),
                bs + 2 <= i < be <= graph.nodes@.len(),
                param == NodeId(bs),
                j <= inputs@.len(),
                forall|k: int| 0 <= k < j ==> #[trigger] inputs@[k] != param,
            decreases inputs@.len() - j,
        {
            if inputs[j] == param {
                assert(graph.inputs_of(i as int)[j as int] == param);
                assert(graph.nodes@[i as int] == graph.nodes@[i as int]);
                return true;
            }
            j = j + 1;
        }
        i = i + 1;
    }
    false
}

fn find_gate(graph: &DataFlowGraph, lo: u32, hi: u32) -> (r: Option<u32>)
    requires
        hi <= graph.nodes@.len(),
    ensures
        r is Some <==> first_gate(graph, lo as int, hi as int) is Some,
        r is Some ==> r->0 == first_gate(graph, lo as int, hi as int)->0 && r->0 < hi,
{
    let mut i: u32 = lo;
    while i < hi
        invariant
            hi <= graph.nodes@.len(),
            lo <= i,
            i <= hi || i == lo,
            first_gate(graph, lo as int, hi as int) == first_gate(graph, i as int, hi as int),
        decreases hi - i,
    {
        if graph.nodes[i as usize].kind == NodeKind::Gate {
            return Some(i);
        }
        i = i + 1;
    }
    None
}

/// Appends one iteration.
fn append_iteration(
    graph: &mut DataFlowGraph,
    info: &UnrollInfo,
    owner: SubGraphId,
    i: u32,
    lo: u32,
    hi: u32,
)
    requires
        old(graph).wf(),
        i < info.trip_count,
        i128::MIN <= info.step * i <= i128::MAX,
        i128::MIN <= info.start_value + info.step * i <= i128::MAX,
        hi <= old(graph).nodes@.len(),
        old(graph).nodes@.len() + 1 + span_ids(lo as int, hi as int).len() <= u32::MAX,
        old(graph).inputs_pool@.len() + span_inputs(old(graph), lo as int, hi as int) <= u32::MAX,
    ensures
        ({
            let st = clone_all(
                iteration_const(state_of(old(graph), no_ids()), *info, owner, i as int),
                span_ids(lo as int, hi as int),
                owner,
            );
            &&& final(graph).nodes@ == st.nodes
            &&& final(graph).inputs_pool@ == st.pool
            &&& final(graph).meta@ == st.meta
        }),
        appended(old(graph), final(graph)),
        final(graph).wf(),
        final(graph).nodes@.len() == old(graph).nodes@.len() + 1 + span_ids(
            lo as int,
            hi as int,
        ).len(),
        final(graph).inputs_pool@.len() == old(graph).inputs_pool@.len() + span_inputs(
            old(graph),
            lo as int,
            hi as int,
        ),
        forall|k: int| 0 <= k < old(graph).nodes@.len() ==> #[trigger] final(graph).nodes@[k] == old(graph).nodes@[k],
        old(graph).inputs_pool@.is_prefix_of(final(graph).inputs_pool@),
{
    let ghost a = *graph;
    let ghost body = span_ids(lo as int, hi as int);
    let value = info.start_value + info.step * (i as i128);
    let cv = make_const_value(&info.start_const, value);
    let empty: [NodeId; 0] = [];
    let const_node = graph.add_node_raw(
        NodeKind::Const,
        empty.as_slice(),
        ComputeFnId(CF_NOOP),
    );
    let mut meta = NodeMeta::new();
    meta.const_value = Some(cv);
    meta.hoisted = true;
    meta.hoisted_owner = owner;
    graph.meta.set(const_node.0 as usize, meta);
    let mut map = IdMap::new();
    map.insert(info.loop_var_node.0, const_node.0);
    let ghost st0 = iteration_const(state_of(&a, no_ids()), *info, owner, i as int);
    proof {
        assert(empty@ =~= Seq::<NodeId>::empty());
        assert(a.inputs_pool@ + empty@ =~= a.inputs_pool@);
        assert(graph.meta@ =~= st0.meta);
        assert(state_of(graph, map@) =~= st0);
        assert(graph.downstreams@.take(a.downstreams@.len() as int) =~= a.downstreams@);
        assert forall|k: int| a.downstreams@.len() <= k < graph.downstreams@.len() implies (
        #[trigger] graph.downstreams@[k])@.len() == 0 by {
            assert(graph.downstreams@.last() == graph.downstreams@[k]);
        }
        assert forall|k: int| #![trigger graph.nodes@[k]] 0 <= k < graph.nodes@.len() implies graph.nodes@[k].inputs_offset
            + graph.nodes@[k].input_count <= graph.inputs_pool@.len() by {
            if k < a.nodes@.len() {
                assert(a.nodes@[k].inputs_offset + a.nodes@[k].input_count
                    <= a.inputs_pool@.len());
            }
        }
        assert(body.take(0) =~= Seq::<int>::empty());
    }
    let mut b: u32 = lo;
    while b < hi
        invariant
            a.wf(),
            hi <= a.nodes@.len(),
            body == span_ids(lo as int, hi as int),
            a.nodes@.len() + 1 + body.len() <= u32::MAX,
            a.inputs_pool@.len() + span_inputs(&a, lo as int, hi as int) <= u32::MAX,
            lo <= b,
            b <= hi || b == lo,
            graph.wf(),
            appended(&a, graph),
            graph.nodes@.len() == a.nodes@.len() + 1 + (b - lo),
            graph.inputs_pool@.len() == a.inputs_pool@.len() + span_inputs(&a, lo as int, b as int),
            forall|k: int| 0 <= k < a.nodes@.len() ==> #[trigger] graph.nodes@[k] == a.nodes@[k],
            a.inputs_pool@.is_prefix_of(graph.inputs_pool@),
            state_of(graph, map@) == clone_all(st0, body.take(b - lo), owner),
        decreases hi - b,
    {
        let ghost before = *graph;
        proof {
            lemma_span_inputs_grow(&a, lo as int, b + 1, hi as int);
            assert(graph.nodes@[b as int] == a.nodes@[b as int]);
        }
        let id = clone_node(graph, b as usize, &mut map, owner);
        proof {
            lemma_appended_trans(&a, &before, graph);
            assert(body.take(b + 1 - lo).drop_last() =~= body.take(b - lo));
            assert(body.take(b + 1 - lo).last() == b);
        }
        b = b + 1;
    }
    assert(body.take(b - lo) =~= body);
    assert(span_inputs(&a, lo as int, b as int) == span_inputs(&a, lo as int, hi as int));
}

fn mark_range_dead(ctx: &mut OptimizerContext, lo: u32, hi: u32)
    ensures
        *final(ctx) == (OptimizerContext { dead: final(ctx).dead, ..*old(ctx) }),
        forall|x: u32| #[trigger]
            final(ctx).dead@.contains(x) <==> old(ctx).dead@.contains(x) || (lo <= x < hi
                && !old(ctx).redirect@.contains_key(x)),
{
    let mut i: u32 = lo;
    while i < hi
        invariant
            lo <= i,
            i <= hi || i == lo,
            *ctx == (OptimizerContext { dead: ctx.dead, ..*old(ctx) }),
            forall|x: u32| #[trigger]
                ctx.dead@.contains(x) <==> old(ctx).dead@.contains(x) || (lo <= x < i
                    && !old(ctx).redirect@.contains_key(x)),
        decreases hi - i,
    {
        if !ctx.redirect.contains_key(i) {
            ctx.dead.insert(i);
        }
        i = i + 1;
    }
}

/// Unrolls one loop. Returns whether it appended an iteration.
fn unroll_loop(
    graph: &mut DataFlowGraph,
    ctx: &mut OptimizerContext,
    sg: SubGraphId,
    info: &UnrollInfo,
) -> (did: bool)
    requires
        old(graph).wf(),
        old(ctx).wf(old(graph).nodes@.len() as int),
        unroll_wf(old(graph), sg, *info),
        unroll_owner(old(graph), sg, *info) is Some ==> {
            &&& old(graph).nodes@.len() + unroll_nodes(old(graph), *info) <= u32::MAX
            &&& old(graph).inputs_pool@.len() + unroll_inputs(old(graph), *info) <= u32::MAX
        },
    ensures
        unrolled_loop(
            old(graph),
            final(graph),
            marks_of(old(ctx)),
            marks_of(final(ctx)),
            sg,
            *info,
        ),
        *final(ctx) == (OptimizerContext {
            dead: final(ctx).dead,
            redirect: final(ctx).redirect,
            ..*old(ctx)
        }),
        final(graph).wf(),
        final(ctx).wf(final(graph).nodes@.len() as int),
        final(graph).subgraphs@ == old(graph).subgraphs@,
        old(graph).nodes@.len() <= final(graph).nodes@.len(),
        unroll_owner(old(graph), sg, *info) is Some ==> {
            &&& final(graph).nodes@.len() == old(graph).nodes@.len() + unroll_nodes(old(graph), *info)
            &&& final(graph).inputs_pool@.len() == old(graph).inputs_pool@.len() + unroll_inputs(old(graph), *info)
        },
        old(graph).inputs_pool@.is_prefix_of(final(graph).inputs_pool@),
        forall|k: int| 0 <= k < old(graph).nodes@.len() ==> #[trigger] final(graph).nodes@[k] == old(graph).nodes@[k],
        did == (unroll_owner(old(graph), sg, *info) is Some && info.trip_count > 0),
        !did ==> *final(graph) == *old(graph),
{
    let ghost a = *graph;
    let ghost m1 = marks_of(ctx);
    let loop_range = graph.subgraphs[sg.0 as usize].node_range;
    let ghost br = a.subgraphs@[info.body_sg.0 as int].node_range;
    let ghost per = 1 + span_ids(br.0.0 + 2, br.1.0 as int).len();
    let ghost each = span_inputs(&a, br.0.0 + 2, br.1.0 as int) as int;
    proof {
        assert(0 <= info.trip_count * per) by (nonlinear_arith)
            requires
                info.trip_count >= 0,
                per >= 0,
        ;
        assert(0 <= info.trip_count * each) by (nonlinear_arith)
            requires
                info.trip_count >= 0,
                each >= 0,
        ;
    }
    let parent = graph.find_immediate_parent_sg(sg);
    proof {
        lemma_enclosing(&a, sg, parent);
        lemma_appended_refl(&a);
    }
    let parent_sg = match parent {
        None => {
            return false;
        },
        Some(p) => p,
    };
    let owner = SubGraphId(graph.subgraphs[parent_sg.0 as usize].function_id);
    let body_range = graph.subgraphs[info.body_sg.0 as usize].node_range;
    if body_uses_iterator(graph, body_range.0.0, body_range.1.0) {
        return false;
    }
    let lo = body_range.0.0 + 2;
    let hi = body_range.1.0;
    let ghost body = span_ids(lo as int, hi as int);
    let ghost st0 = state_of(&a, no_ids());
    let gate = find_gate(graph, loop_range.0.0, loop_range.1.0);
    let mut i: u32 = 0;
    while i < info.trip_count
        invariant
            a.wf(),
            unroll_wf(&a, sg, *info),
            values_fit(*info),
            body_range == a.subgraphs@[info.body_sg.0 as int].node_range,
            lo == body_range.0.0 + 2,
            hi == body_range.1.0,
            hi <= a.nodes@.len(),
            body == span_ids(lo as int, hi as int),
            per == 1 + body.len(),
            a.nodes@.len() + info.trip_count * per <= u32::MAX,
            each == span_inputs(&a, lo as int, hi as int),
            a.inputs_pool@.len() + info.trip_count * each <= u32::MAX,
            i <= info.trip_count,
            i == 0 ==> *graph == a,
            graph.wf(),
            appended(&a, graph),
            graph.nodes@.len() == a.nodes@.len() + i * per,
            graph.inputs_pool@.len() == a.inputs_pool@.len() + i * each,
            a.inputs_pool@.is_prefix_of(graph.inputs_pool@),
            forall|k: int| 0 <= k < a.nodes@.len() ==> #[trigger] graph.nodes@[k] == a.nodes@[k],
            st0 == state_of(&a, no_ids()),
            ({
                let st = unrolled(st0, *info, owner, body, i as int);
                graph.nodes@ == st.nodes && graph.inputs_pool@ == st.pool && graph.meta@ == st.meta
            }),
        decreases info.trip_count - i,
    {
        let ghost before = *graph;
        proof {
            assert((i + 1) * per == i * per + per) by (nonlinear_arith);
            assert((i + 1) * per <= info.trip_count * per) by (nonlinear_arith)
                requires
                    i + 1 <= info.trip_count,
                    per >= 0,
            ;
            assert((i + 1) * each == i * each + each) by (nonlinear_arith);
            assert((i + 1) * each <= info.trip_count * each) by (nonlinear_arith)
                requires
                    i + 1 <= info.trip_count,
                    each >= 0,
            ;
            lemma_same_span_inputs(&a, graph, lo as int, hi as int);
            assert(i128::MIN <= info.start_value + info.step * (i as int) <= i128::MAX);
        }
        append_iteration(graph, info, owner, i, lo, hi);
        proof {
            lemma_appended_trans(&a, &before, graph);
            let prev = unrolled(st0, *info, owner, body, i as int);
            assert(iteration_const(state_of(&before, no_ids()), *info, owner, i as int)
                == iteration_const(prev, *info, owner, i as int));
        }
        i = i + 1;
    }
    let end = graph.nodes.len();
    proof {
        assert(info.trip_count > 0 ==> info.trip_count * per >= 1) by (nonlinear_arith)
            requires
                per >= 1,
        ;
    }
    if let Some(gt) = gate {
        if info.trip_count > 0 {
            let last = (end - 1) as u32;
            proof {
                lemma_insert_acyclic(ctx.redirect@, gt, last);
            }
            ctx.redirect.insert(gt, last);
        } else {
            ctx.dead.insert(gt);
        }
    }
    mark_range_dead(ctx, loop_range.0.0, loop_range.1.0);
    mark_range_dead(ctx, body_range.0.0, body_range.1.0);
    proof {
        let want = unroll_marks(&a, m1, sg, *info, end as int);
        assert(ctx.redirect@ == want.redirect);
        assert(ctx.dead@ =~= want.dead);
    }
    info.trip_count > 0
}

/// The graphs and marks run from the first to the last, loop by loop.
pub open spec fn unroll_chain(
    gs: Seq<DataFlowGraph>,
    ms: Seq<Marks>,
    loops: Seq<(SubGraphId, UnrollInfo)>,
) -> bool {
    &&& gs.len() == loops.len() + 1
    &&& ms.len() == loops.len() + 1
    &&& forall|k: int| #![trigger gs[k]]
        0 <= k < loops.len() ==> unrolled_loop(
            &gs[k],
            &gs[k + 1],
            ms[k],
            ms[k + 1],
            loops[k].0,
            loops[k].1,
        )
}

/// Number of nodes that the first `n` loops append.
pub open spec fn unroll_total(g: &DataFlowGraph, loops: Seq<(SubGraphId, UnrollInfo)>, n: int) -> int
    decreases n,
{
    if n <= 0 {
        0
    } else {
        unroll_total(g, loops, n - 1) + if unroll_owner(g, loops[n - 1].0, loops[n - 1].1) is Some {
            unroll_nodes(g, loops[n - 1].1)
        } else {
            0
        }
    }
}

/// Number of inputs that the first `n` loops append.
pub open spec fn unroll_input_total(g: &DataFlowGraph, loops: Seq<(SubGraphId, UnrollInfo)>, n: int) -> int
    decreases n,
{
    if n <= 0 {
        0
    } else {
        unroll_input_total(g, loops, n - 1) + if unroll_owner(g, loops[n - 1].0, loops[n - 1].1) is Some {
            unroll_inputs(g, loops[n - 1].1)
        } else {
            0
        }
    }
}

/// Whether one of the steps unrolls its loop.
pub open spec fn unrolls_any(gs: Seq<DataFlowGraph>, loops: Seq<(SubGraphId, UnrollInfo)>) -> bool {
    exists|k: int| #![trigger gs[k]]
        0 <= k < loops.len() && unroll_owner(&gs[k], loops[k].0, loops[k].1) is Some && loops[k].1.trip_count > 0
}

/// The loops lie in the graph, and there is room for the clones.
pub open spec fn unrolls_wf(g: &DataFlowGraph, loops: Seq<(SubGraphId, UnrollInfo)>) -> bool {
    &&& g.wf()
    &&& forall|k: int| #![trigger loops[k]]
        0 <= k < loops.len() ==> unroll_wf(g, loops[k].0, loops[k].1)
    &&& g.nodes@.len() + unroll_total(g, loops, loops.len() as int) <= u32::MAX
    &&& g.inputs_pool@.len() + unroll_input_total(g, loops, loops.len() as int) <= u32::MAX
}

proof fn lemma_unroll_nodes_positive(g: &DataFlowGraph, info: UnrollInfo)
    ensures
        unroll_nodes(g, info) >= 0,
        unroll_inputs(g, info) >= 0,
{
    let br = g.subgraphs@[info.body_sg.0 as int].node_range;
    let per = 1 + span_ids(br.0.0 + 2, br.1.0 as int).len();
    assert(info.trip_count * per >= 0) by (nonlinear_arith)
        requires
            per >= 0,
            info.trip_count >= 0,
    ;
    let each = span_inputs(g, br.0.0 + 2, br.1.0 as int) as int;
    assert(info.trip_count * each >= 0) by (nonlinear_arith)
        requires
            each >= 0,
            info.trip_count >= 0,
    ;
}

pub proof fn lemma_unroll_total_grows(
    g: &DataFlowGraph,
    loops: Seq<(SubGraphId, UnrollInfo)>,
    a: int,
    b: int,
)
    requires
        0 <= a <= b,
    ensures
        0 <= unroll_total(g, loops, a) <= unroll_total(g, loops, b),
        0 <= unroll_input_total(g, loops, a) <= unroll_input_total(g, loops, b),
    decreases b,
{
    if a < b {
        lemma_unroll_total_grows(g, loops, a, b - 1);
        lemma_unroll_nodes_positive(g, loops[b - 1].1);
    } else if b > 0 {
        lemma_unroll_total_grows(g, loops, a - 1, b - 1);
        lemma_unroll_nodes_positive(g, loops[b - 1].1);
    }
}

/// Unrolls every listed loop.
pub fn pass_loop_unroll(
    graph: &mut DataFlowGraph,
    ctx: &mut OptimizerContext,
    analysis: Option<&AnalysisReport>,
)
    requires
        analysis is Some ==> unrolls_wf(old(graph), analysis->0.loop_analysis.unrollable@),
        analysis is Some ==> old(ctx).wf(old(graph).nodes@.len() as int),
    ensures
        analysis is None ==> *final(graph) == *old(graph) && *final(ctx) == *old(ctx),
        analysis is Some ==> ({
            let loops = analysis->0.loop_analysis.unrollable@;
            &&& exists|gs: Seq<DataFlowGraph>, ms: Seq<Marks>| #[trigger]
                unroll_chain(gs, ms, loops) && gs[0] == *old(graph) && gs[gs.len() - 1]
                    == *final(graph) && ms[0] == marks_of(old(ctx)) && ms[ms.len() - 1]
                    == marks_of(final(ctx)) && *final(ctx) == (OptimizerContext {
                    dead: final(ctx).dead,
                    redirect: final(ctx).redirect,
                    mutated: old(ctx).mutated || unrolls_any(gs, loops),
                    ..*old(ctx)
                })
            &&& final(ctx).wf(final(graph).nodes@.len() as int)
            &&& final(graph).wf()
            &&& final(graph).subgraphs@ == old(graph).subgraphs@
            &&& final(graph).nodes@.len() >= old(graph).nodes@.len()
            &&& !final(ctx).mutated ==> *final(graph) == *old(graph)
        }),
{
    let report = match analysis {
        None => {
            return;
        },
        Some(r) => &r.loop_analysis,
    };
    let ghost first = *graph;
    let ghost loops = report.unrollable@;
    let ghost mut gs = seq![first];
    let ghost mut ms = seq![marks_of(ctx)];
    let mut any = false;
    let mut k: usize = 0;
    while k < report.unrollable.len()
        invariant
            loops == report.unrollable@,
            unrolls_wf(&first, loops),
            first == *old(graph),
            k <= loops.len(),
            gs.len() == k + 1,
            ms.len() == k + 1,
            gs[0] == first,
            gs[k as int] == *graph,
            ms[0] == marks_of(old(ctx)),
            ms[k as int] == marks_of(ctx),
            forall|q: int| #![trigger gs[q]]
                0 <= q < k ==> unrolled_loop(
                    &gs[q],
                    &gs[q + 1],
                    ms[q],
                    ms[q + 1],
                    loops[q].0,
                    loops[q].1,
                ),
            !any ==> *graph == first,
            graph.wf(),
            graph.subgraphs@ == first.subgraphs@,
            first.nodes@.len() <= graph.nodes@.len(),
            graph.nodes@.len() == first.nodes@.len() + unroll_total(&first, loops, k as int),
            graph.inputs_pool@.len() == first.inputs_pool@.len() + unroll_input_total(&first, loops, k as int),
            first.inputs_pool@.is_prefix_of(graph.inputs_pool@),
            forall|i: int| 0 <= i < first.nodes@.len() ==> #[trigger] graph.nodes@[i] == first.nodes@[i],
            *ctx == (OptimizerContext { dead: ctx.dead, redirect: ctx.redirect, ..*old(ctx) }),
            ctx.wf(graph.nodes@.len() as int),
            any <==> exists|q: int| #![trigger gs[q]]
                0 <= q < k && unroll_owner(&gs[q], loops[q].0, loops[q].1) is Some
                    && loops[q].1.trip_count > 0,
        decreases loops.len() - k,
    {
        let (sg, info) = report.unrollable[k];
        let ghost before = *graph;
        let ghost gs0 = gs;
        let ghost ms0 = ms;
        let ghost had = any;
        proof {
            lemma_unroll_total_grows(&first, loops, k + 1, loops.len() as int);
            assert(loops[k as int] == (sg, info));
            assert(unroll_wf(&first, sg, info));
            lemma_same_owner(&first, graph, sg, info);
            assert(unroll_wf(graph, sg, info));
            assert(unroll_nodes(graph, info) == unroll_nodes(&first, info));
            if unroll_owner(&first, sg, info) is Some {
                let br = first.subgraphs@[info.body_sg.0 as int].node_range;
                lemma_same_span_inputs(&first, graph, br.0.0 + 2, br.1.0 as int);
                assert(unroll_inputs(graph, info) == unroll_inputs(&first, info));
            }
        }
        let did = unroll_loop(graph, ctx, sg, &info);
        proof {
            gs = gs0.push(*graph);
            ms = ms0.push(marks_of(ctx));
            assert forall|q: int| #![trigger gs[q]] 0 <= q < k + 1 implies unrolled_loop(
                &gs[q],
                &gs[q + 1],
                ms[q],
                ms[q + 1],
                loops[q].0,
                loops[q].1,
            ) by {
                assert(gs[q] == gs0[q]);
                if q < k {
                    assert(gs[q + 1] == gs0[q + 1] && ms[q + 1] == ms0[q + 1]);
                }
            }
            if had {
                let q = choose|q: int| #![trigger gs0[q]]
                    0 <= q < k && unroll_owner(&gs0[q], loops[q].0, loops[q].1) is Some
                        && loops[q].1.trip_count > 0;
                assert(gs[q] == gs0[q]);
            }
            if did {
                assert(gs[k as int] == before);
            }
            if exists|q: int| #![trigger gs[q]]
                0 <= q < k + 1 && unroll_owner(&gs[q], loops[q].0, loops[q].1) is Some
                    && loops[q].1.trip_count > 0 {
                let q = choose|q: int| #![trigger gs[q]]
                    0 <= q < k + 1 && unroll_owner(&gs[q], loops[q].0, loops[q].1) is Some
                        && loops[q].1.trip_count > 0;
                assert(gs[q] == gs0[q]);
            }
        }
        if did {
            any = true;
        }
        k = k + 1;
    }
    proof {
        assert(unroll_chain(gs, ms, loops));
    }
    if any {
        ctx.mutated = true;
    }
}

// ---- laws ------------------------------------------------------------------

/// Unrolling further only appends, the same number of nodes each time.
proof fn lemma_unrolling_appends(
    st: CloneState,
    info: UnrollInfo,
    owner: SubGraphId,
    body: Seq<int>,
    m: int,
    n: int,
)
    requires
        0 <= m <= n,
        st.meta.len() == st.nodes.len(),
    ensures
        ({
            let u = unrolled(st, info, owner, body, m);
            let v = unrolled(st, info, owner, body, n);
            &&& v.nodes.len() == u.nodes.len() + (n - m) * (1 + body.len())
            &&& v.meta.len() == v.nodes.len()
            &&& u.meta.len() == u.nodes.len()
            &&& v.pool.len() >= u.pool.len()
            &&& forall|i: int| #![trigger v.nodes[i]] 0 <= i < u.nodes.len() ==> v.nodes[i] == u.nodes[i]
            &&& forall|i: int| #![trigger v.meta[i]] 0 <= i < u.meta.len() ==> v.meta[i] == u.meta[i]
            &&& forall|i: int| #![trigger v.pool[i]] 0 <= i < u.pool.len() ==> v.pool[i] == u.pool[i]
        }),
    decreases n,
{
    let u = unrolled(st, info, owner, body, m);
    let v = unrolled(st, info, owner, body, n);
    if m < n {
        lemma_unrolling_appends(st, info, owner, body, m, n - 1);
        let p = unrolled(st, info, owner, body, n - 1);
        let q = iteration_const(p, info, owner, n - 1);
        lemma_cloning_appends(q, body, owner);
        let s = (1 + body.len()) as int;
        assert((n - m) * s == (n - 1 - m) * s + s) by (nonlinear_arith);
        assert forall|i: int| #![trigger v.nodes[i]] 0 <= i < u.nodes.len() implies v.nodes[i] == u.nodes[i] by {
            assert(q.nodes[i] == p.nodes[i]);
        }
        assert forall|i: int| #![trigger v.meta[i]] 0 <= i < u.meta.len() implies v.meta[i] == u.meta[i] by {
            assert(q.meta[i] == p.meta[i]);
        }
    } else if n > 0 {
        lemma_unrolling_appends(st, info, owner, body, 0, n - 1);
        let q = iteration_const(unrolled(st, info, owner, body, n - 1), info, owner, n - 1);
        lemma_cloning_appends(q, body, owner);
        assert((n - m) * (1 + body.len()) == 0) by (nonlinear_arith)
            requires
                n == m,
        ;
    } else {
        assert((n - m) * (1 + body.len()) == 0) by (nonlinear_arith)
            requires
                n == m,
        ;
    }
}

/// Each iteration of an unrolled loop runs the body with the loop variable's
/// value in that iteration. Iteration `t` starts with a constant of the type of
/// the first value whose value is `t` steps behind it. Then comes a copy of
/// every node of the body behind the two parameters, in order, with the same
/// kind, compute function and metadata, appended for the function of the region
/// around the loop. A copy works on the iteration's constant in place of the
/// loop variable, on the copies of earlier nodes of the body in place of those,
/// and on the same nodes for the rest.
pub proof fn law_iterations_run_the_body(
    a: &DataFlowGraph,
    b: &DataFlowGraph,
    m1: Marks,
    m2: Marks,
    sg: SubGraphId,
    info: UnrollInfo,
    t: int,
)
    requires
        unrolled_loop(a, b, m1, m2, sg, info),
        unroll_owner(a, sg, info) is Some,
        a.wf(),
        b.wf(),
        a.subgraphs@[info.body_sg.0 as int].node_range.1.0 <= a.nodes@.len(),
        a.subgraphs@[info.body_sg.0 as int].node_range.0.0 + 2
            <= a.subgraphs@[info.body_sg.0 as int].node_range.1.0,
        int_of(info.start_const) is Some,
        0 <= t < info.trip_count,
    ensures
        ({
            let lo = a.subgraphs@[info.body_sg.0 as int].node_range.0.0 + 2;
            let hi = a.subgraphs@[info.body_sg.0 as int].node_range.1.0 as int;
            let ty = (int_of(info.start_const)->0).0;
            let c = a.nodes@.len() + t * (1 + hi - lo);
            &&& b.nodes@.len() == a.nodes@.len() + info.trip_count * (1 + hi - lo)
            &&& c + hi - lo < b.nodes@.len()
            &&& b.nodes@[c].kind == NodeKind::Const && b.nodes@[c].input_count == 0
            &&& b.meta@[c].const_value is Some
            &&& ty.holds(info.start_value + info.step * t) ==> int_of(b.meta@[c].const_value->0) == Some(
                (ty, info.start_value + info.step * t),
            )
            &&& forall|s: int| #![trigger a.nodes@[s]]
                lo <= s < hi ==> {
                    let d = c + 1 + s - lo;
                    &&& b.nodes@[d].kind == a.nodes@[s].kind
                    &&& b.nodes@[d].compute_fn == a.nodes@[s].compute_fn
                    &&& b.meta@[d] == (NodeMeta {
                        hoisted: true,
                        hoisted_owner: SubGraphId(a.subgraphs@[(enclosing(a, sg)->0).0 as int].function_id),
                        ..a.meta@[s]
                    })
                    &&& b.inputs_of(d).len() == a.inputs_of(s).len()
                    &&& forall|j: int| #![trigger a.inputs_of(s)[j]]
                        0 <= j < a.inputs_of(s).len() ==> b.inputs_of(d)[j].0 == {
                            let x = a.inputs_of(s)[j];
                            if lo <= x.0 < s {
                                c + 1 + x.0 - lo
                            } else if x == info.loop_var_node {
                                c
                            } else {
                                x.0 as int
                            }
                        }
                }
        }),
        forall|i: int| #![trigger b.nodes@[i]] 0 <= i < a.nodes@.len() ==> b.nodes@[i] == a.nodes@[i],
{
    let owner = unroll_owner(a, sg, info)->0;
    let lo = a.subgraphs@[info.body_sg.0 as int].node_range.0.0 + 2;
    let hi = a.subgraphs@[info.body_sg.0 as int].node_range.1.0 as int;
    let body = span_ids(lo, hi);
    let st = state_of(a, no_ids());
    let n = info.trip_count as int;
    let u = unrolled(st, info, owner, body, t);
    let q = iteration_const(u, info, owner, t);
    let v = unrolled(st, info, owner, body, t + 1);
    let e = unrolled(st, info, owner, body, n);
    let ty = (int_of(info.start_const)->0).0;
    let c = a.nodes@.len() + t * (1 + hi - lo);
    assert(body.len() == hi - lo);
    lemma_unrolling_appends(st, info, owner, body, 0, t);
    lemma_unrolling_appends(st, info, owner, body, 0, n);
    lemma_unrolling_appends(st, info, owner, body, t + 1, n);
    assert(unrolled(st, info, owner, body, 0) == st);
    assert(v == clone_all(q, body, owner));
    lemma_cloning_appends(q, body, owner);
    assert(u.nodes.len() == c);
    assert((n - (t + 1)) * (1 + body.len()) >= 0) by (nonlinear_arith)
        requires
            t + 1 <= n,
    ;
    assert(e.nodes.len() == b.nodes@.len());
    assert(e.nodes[c] == v.nodes[c]);
    assert(v.nodes[c] == q.nodes[c]);
    assert(e.meta[c] == v.meta[c]);
    assert(v.meta[c] == q.meta[c]);
    let x = info.start_value + info.step * t;
    assert(b.meta@[c].const_value == Some(const_like(info.start_const, x)));
    if ty.holds(x) {
        crate::arith::lemma_wrap_of_held(ty, x);
        crate::arith::lemma_widths(ty);
        assert(usize::BITS == 32 || usize::BITS == 64);
        assert(int_of(const_of(ty, x)) == Some((ty, x)));
    }
    assert(body.no_duplicates());
    assert forall|j: int| #![trigger body[j]] 0 <= j < body.len() implies 0 <= body[j] < q.nodes.len() by {
    }
    assert forall|s: int| #![trigger a.nodes@[s]] lo <= s < hi implies {
        let d = c + 1 + s - lo;
        &&& b.nodes@[d].kind == a.nodes@[s].kind
        &&& b.nodes@[d].compute_fn == a.nodes@[s].compute_fn
        &&& b.meta@[d] == (NodeMeta {
            hoisted: true,
            hoisted_owner: SubGraphId(a.subgraphs@[(enclosing(a, sg)->0).0 as int].function_id),
            ..a.meta@[s]
        })
        &&& b.inputs_of(d).len() == a.inputs_of(s).len()
        &&& forall|j: int| #![trigger a.inputs_of(s)[j]]
            0 <= j < a.inputs_of(s).len() ==> b.inputs_of(d)[j].0 == {
                let x = a.inputs_of(s)[j];
                if lo <= x.0 < s {
                    c + 1 + x.0 - lo
                } else if x == info.loop_var_node {
                    c
                } else {
                    x.0 as int
                }
            }
    } by {
        let k = s - lo;
        let d = c + 1 + k;
        assert(body[k] == s);
        assert(a.nodes@[s].inputs_offset + a.nodes@[s].input_count <= a.inputs_pool@.len());
        assert(q.nodes[s] == a.nodes@[s]) by {
            assert(u.nodes[s] == st.nodes[s]);
        }
        assert(q.meta[s] == a.meta@[s]) by {
            assert(u.meta[s] == st.meta[s]);
        }
        assert(state_inputs(q, s) =~= a.inputs_of(s)) by {
            assert forall|j: int| 0 <= j < st.pool.len() implies q.pool[j] == st.pool[j] by {
                assert(u.pool[j] == st.pool[j]);
            }
        }
        law_clones_do_what_their_sources_do(q, body, owner, k);
        assert(e.nodes[d] == v.nodes[d]);
        assert(e.meta[d] == v.meta[d]);
        assert(v.nodes[d].inputs_offset + v.nodes[d].input_count <= v.pool.len()) by {
            lemma_clone_inputs_lie_in_the_pool(q, body, owner, k);
        }
        assert(state_inputs(v, d) =~= b.inputs_of(d)) by {
            assert forall|j: int| 0 <= j < v.pool.len() implies e.pool[j] == v.pool[j] by {
            }
        }
        assert forall|j: int| #![trigger a.inputs_of(s)[j]] 0 <= j < a.inputs_of(s).len() implies b.inputs_of(d)[j].0
            == {
            let x = a.inputs_of(s)[j];
            if lo <= x.0 < s {
                c + 1 + x.0 - lo
            } else if x == info.loop_var_node {
                c
            } else {
                x.0 as int
            }
        } by {
            let y = a.inputs_of(s)[j];
            let p = body.take(k);
            if lo <= y.0 < s {
                assert(body[y.0 - lo] == y.0);
                assert(state_inputs(v, d)[j].0 == q.nodes.len() + (y.0 - lo));
            } else {
                if p.contains(y.0 as int) {
                    let m = choose|m: int| 0 <= m < p.len() && p[m] == y.0 as int;
                    assert(body[m] == lo + m);
                }
                assert(q.map.contains_key(y.0) <==> y.0 == info.loop_var_node.0);
                assert(state_inputs(v, d)[j] == b.inputs_of(d)[j]);
            }
        }
    }
    assert forall|i: int| #![trigger b.nodes@[i]] 0 <= i < a.nodes@.len() implies b.nodes@[i] == a.nodes@[i] by {
        assert(e.nodes[i] == st.nodes[i]);
    }
}

/// What the unrolled loop was is replaced: its first gate stands for the last
/// node of the last iteration, or is dead where there is no iteration. All
/// other nodes of the loop and its body are dead or stand for others. Every
/// other node keeps its marks.
pub proof fn law_unrolled_loops_are_replaced(
    a: &DataFlowGraph,
    b: &DataFlowGraph,
    m1: Marks,
    m2: Marks,
    sg: SubGraphId,
    info: UnrollInfo,
    x: u32,
)
    requires
        unrolled_loop(a, b, m1, m2, sg, info),
        unroll_owner(a, sg, info) is Some,
        b.wf(),
        a.subgraphs@[sg.0 as int].node_range.1.0 <= a.nodes@.len(),
    ensures
        m1.dead.contains(x) ==> m2.dead.contains(x),
        ({
            let lr = a.subgraphs@[sg.0 as int].node_range;
            let br = a.subgraphs@[info.body_sg.0 as int].node_range;
            let first = lr.0.0 <= x < lr.1.0 && a.nodes@[x as int].kind == NodeKind::Gate && forall|y: int|
                #![trigger a.nodes@[y]]
                lr.0.0 <= y < x ==> a.nodes@[y].kind != NodeKind::Gate;
            &&& first && info.trip_count > 0 ==> m2.redirect.contains_key(x) && m2.redirect[x] == b.nodes@.len() - 1
            &&& first && info.trip_count == 0 ==> m2.dead.contains(x)
            &&& !(first && info.trip_count > 0) ==> (m2.redirect.contains_key(x) <==> m1.redirect.contains_key(x))
                && m2.redirect[x] == m1.redirect[x]
            &&& lr.0.0 <= x < lr.1.0 || br.0.0 <= x < br.1.0 ==> m2.dead.contains(x) || m2.redirect.contains_key(x)
            &&& !(lr.0.0 <= x < lr.1.0) && !(br.0.0 <= x < br.1.0) ==> (m2.dead.contains(x) <==> m1.dead.contains(x))
        }),
{
    let lr = a.subgraphs@[sg.0 as int].node_range;
    lemma_first_gate(a, lr.0.0 as int, lr.1.0 as int);
}

proof fn lemma_first_gate(g: &DataFlowGraph, lo: int, hi: int)
    ensures
        match first_gate(g, lo, hi) {
            Some(i) => lo <= i < hi && g.nodes@[i].kind == NodeKind::Gate && forall|y: int|
                #![trigger g.nodes@[y]]
                lo <= y < i ==> g.nodes@[y].kind != NodeKind::Gate,
            None => forall|y: int| #![trigger g.nodes@[y]] lo <= y < hi ==> g.nodes@[y].kind != NodeKind::Gate,
        },
    decreases hi - lo,
{
    if lo < hi {
        lemma_first_gate(g, lo + 1, hi);
    }
}

/// The region around a loop contains the loop and is another one, and no region
/// that does so is smaller.
pub proof fn law_the_region_around_is_the_smallest(g: &DataFlowGraph, sg: SubGraphId, s: int)
    requires
        0 <= s < g.subgraphs@.len() <= u32::MAX,
        s != sg.0,
        g.subgraphs@[s].node_range.0.0 <= g.subgraphs@[sg.0 as int].node_range.0.0,
        g.subgraphs@[sg.0 as int].node_range.1.0 <= g.subgraphs@[s].node_range.1.0,
        g.subgraphs@[s].node_range != g.subgraphs@[sg.0 as int].node_range,
    ensures
        enclosing(g, sg) is Some,
        ({
            let p = enclosing(g, sg)->0;
            let r = g.subgraphs@[p.0 as int].node_range;
            let i = g.subgraphs@[sg.0 as int].node_range;
            &&& p.0 < g.subgraphs@.len() && p != sg
            &&& r.0.0 <= i.0.0 && i.1.0 <= r.1.0 && r != i
            &&& range_size(r) <= range_size(g.subgraphs@[s].node_range)
        }),
{
    let wanted = g.strictly_encloses(sg);
    let r = lemma_smallest_exists(g, wanted, g.subgraphs@.len() as int);
    assert(g.smallest_first(wanted, r));
    lemma_enclosing(g, sg, r);
    assert(wanted(s));
    if r is Some {
        assert(wanted((r->0).0 as int));
    }
}

/// A loop whose body uses the iterator itself, behind the two parameters, is not
/// unrolled, nor is one without a region around it.
pub proof fn law_iterating_bodies_stay(
    a: &DataFlowGraph,
    b: &DataFlowGraph,
    m1: Marks,
    m2: Marks,
    sg: SubGraphId,
    info: UnrollInfo,
    i: int,
    j: int,
)
    requires
        unrolled_loop(a, b, m1, m2, sg, info),
        ({
            let br = a.subgraphs@[info.body_sg.0 as int].node_range;
            &&& br.0.0 + 2 <= i < br.1.0
            &&& 0 <= j < a.inputs_of(i).len()
            &&& a.inputs_of(i)[j] == br.0
        }) || enclosing(a, sg) is None,
    ensures
        *b == *a,
        m2 == m1,
{
    let br = a.subgraphs@[info.body_sg.0 as int].node_range;
    if enclosing(a, sg) is Some {
        assert(NodeId(br.0.0) == br.0);
        assert(a.inputs_of(i).contains(NodeId(br.0.0)));
        let n = a.nodes@[i];
        assert(uses_iterator(a, br.0.0 as int, br.1.0 as int));
    }
}

} // verus!
