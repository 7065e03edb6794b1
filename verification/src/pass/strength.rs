//! Strength reduction: multiplications, divisions and remainders by powers of
//! two become shifts and masks.
//!
//! The node is rewritten in place, and the constant that it used alone is
//! reused for the shift amount or the mask; no node is created. Division and
//! remainder are reduced for unsigned types only: for negative numbers they
//! round toward zero, and shifts and masks do not.

use vstd::arithmetic::div_mod::*;
use vstd::arithmetic::mul::*;
use vstd::arithmetic::power2::*;
use vstd::prelude::*;

use crate::arith::{
    const_of, int_of, int_result, lemma_residue, lemma_widths, IntBits, IntOp, IntTy,
};
use crate::fx::IdSet;
use crate::ir::graph::DataFlowGraph;
use crate::ir::layout::stays;
use crate::ir::meta::NodeMeta;
use crate::ir::redirect::{acyclic, resolved};
use crate::ir::types::{ComputeFnId, ConstValue, Node, NodeId, NodeKind};
use crate::pass::context::OptimizerContext;
use crate::pass::fold::{block_ty, int_op_of};
use crate::pass::liveness::{
    collect_writeback_targets, has_side_effect, is_writeback_target, side_effect,
};

verus! {

// ---- which operation becomes which -----------------------------------------

/// The left shift of the type that a multiplication is of.
pub open spec fn shl_for(id: u32) -> Option<u32> {
    if 92 <= id <= 235 && (id - 92) % 12 == 2 {
        Some((id + 6) as u32)
    } else {
        None
    }
}

/// The right shift of the unsigned type that a division is of.
pub open spec fn shr_for(id: u32) -> Option<u32> {
    if 92 <= id <= 235 && (id - 92) % 12 == 3 && !block_ty((id - 92) / 12).is_signed() {
        Some((id + 6) as u32)
    } else {
        None
    }
}

/// The bitwise and of the unsigned type that a remainder is of.
pub open spec fn mask_for(id: u32) -> Option<u32> {
    if 92 <= id <= 235 && (id - 92) % 12 == 4 && !block_ty((id - 92) / 12).is_signed() {
        Some((id + 1) as u32)
    } else {
        None
    }
}

fn is_unsigned_block(type_idx: u32) -> (r: bool)
    requires
        type_idx < 12,
    ensures
        r == !block_ty(type_idx as int).is_signed(),
{
    (5 <= type_idx && type_idx <= 9) || type_idx == 11
}

/// The left shift for a multiplication, if the id is one.
pub fn mul_to_shl(cf: ComputeFnId) -> (r: Option<ComputeFnId>)
    ensures
        r is Some <==> shl_for(cf.0) is Some,
        r is Some ==> (r->0).0 == shl_for(cf.0)->0,
{
    let id = cf.0;
    if id >= 92 && id <= 235 && (id - 92) % 12 == 2 {
        return Some(ComputeFnId(id + 6));
    }
    None
}

/// The right shift for an unsigned division, if the id is one.
pub fn div_to_shr(cf: ComputeFnId) -> (r: Option<ComputeFnId>)
    ensures
        r is Some <==> shr_for(cf.0) is Some,
        r is Some ==> (r->0).0 == shr_for(cf.0)->0,
{
    let id = cf.0;
    if id >= 92 && id <= 235 && (id - 92) % 12 == 3 && is_unsigned_block((id - 92) / 12) {
        return Some(ComputeFnId(id + 6));
    }
    None
}

/// The mask operation for an unsigned remainder, if the id is one.
pub fn mod_to_bitand(cf: ComputeFnId) -> (r: Option<ComputeFnId>)
    ensures
        r is Some <==> mask_for(cf.0) is Some,
        r is Some ==> (r->0).0 == mask_for(cf.0)->0,
{
    let id = cf.0;
    if id >= 92 && id <= 235 && (id - 92) % 12 == 4 && is_unsigned_block((id - 92) / 12) {
        return Some(ComputeFnId(id + 1));
    }
    None
}

// ---- powers of two ---------------------------------------------------------

/// `n` is the exponent of the power of two `v`; none if `v` is none.
pub open spec fn exponent_is(v: u128, n: Option<u32>) -> bool {
    match n {
        Some(e) => e < 128 && v == pow2(e as nat),
        None => forall|e: nat| e < 128 ==> v != #[trigger] pow2(e),
    }
}

/// The exponent of a power of two.
pub open spec fn exponent_of(v: u128) -> Option<u32> {
    choose|n: Option<u32>| exponent_is(v, n)
}

proof fn lemma_exponent(v: u128, n: Option<u32>)
    requires
        exponent_is(v, n),
    ensures
        exponent_of(v) == n,
{
    let m = exponent_of(v);
    assert(exponent_is(v, m));
    if let (Some(a), Some(b)) = (m, n) {
        if a < b {
            lemma_pow2_strictly_increases(a as nat, b as nat);
        } else if b < a {
            lemma_pow2_strictly_increases(b as nat, a as nat);
        }
    } else if let (Some(a), None) = (m, n) {
        assert(v != pow2(a as nat));
    } else if let (None, Some(b)) = (m, n) {
        assert(v != pow2(b as nat));
    }
}

/// The exponent, if the number is a power of two.
pub fn power_of_two(v: u128) -> (r: Option<u32>)
    ensures
        r == exponent_of(v),
        exponent_is(v, r),
{
    if v == 0 {
        proof {
            assert forall|e: nat| e < 128 implies v != #[trigger] pow2(e) by {
                lemma_pow2_pos(e);
            }
            lemma_exponent(v, None);
        }
        return None;
    }
    let mut x = v;
    let mut n: u32 = 0;
    proof {
        lemma2_to64();
        lemma_widths(IntTy::U128);
        assert(x * pow2(0) == v);
    }
    while x % 2 == 0
        invariant
            x > 0,
            n <= 127,
            x * pow2(n as nat) == v,
            pow2(128) == u128::MAX + 1,
        decreases x,
    {
        proof {
            lemma_pow2_unfold((n + 1) as nat);
            let h = (x / 2) as int;
            assert(h * (2 * pow2(n as nat)) == x * pow2(n as nat)) by (nonlinear_arith)
                requires
                    x == 2 * h,
            ;
            if n == 127 {
                assert(h * pow2(128) >= pow2(128)) by (nonlinear_arith)
                    requires
                        h >= 1,
                        pow2(128) > 0,
                ;
            }
        }
        x = x / 2;
        n = n + 1;
    }
    if x == 1 {
        proof {
            lemma_exponent(v, Some(n));
        }
        Some(n)
    } else {
        proof {
            assert forall|e: nat| e < 128 implies v != #[trigger] pow2(e) by {
                if v == pow2(e) {
                    lemma_odd_factor(x as int, n as nat, e);
                }
            }
            lemma_exponent(v, None);
        }
        None
    }
}

/// An odd number above 1 times a power of two is no power of two.
proof fn lemma_odd_factor(x: int, n: nat, e: nat)
    requires
        x > 1,
        x % 2 == 1,
    ensures
        x * pow2(n) != pow2(e),
    decreases n,
{
    lemma2_to64();
    lemma_pow2_pos(n);
    lemma_pow2_pos(e);
    if n == 0 {
        if e > 0 {
            lemma_pow2_unfold(e);
        }
    } else {
        lemma_pow2_unfold(n);
        let h = pow2((n - 1) as nat) as int;
        if e == 0 {
            assert(x * (2 * h) >= 2) by (nonlinear_arith)
                requires
                    x > 1,
                    2 * h == pow2(n),
                    pow2(n) > 0,
            ;
        } else {
            lemma_pow2_unfold(e);
            lemma_odd_factor(x, (n - 1) as nat, (e - 1) as nat);
            assert(x * (2 * h) == 2 * (x * h)) by (nonlinear_arith);
        }
    }
}

// ---- constants -------------------------------------------------------------

/// The 128 bits of an integer constant, sign extended.
pub open spec fn unsigned_of(cv: ConstValue) -> Option<u128> {
    match int_of(cv) {
        Some((_, v)) => Some((v % (u128::MAX + 1)) as u128),
        None => None,
    }
}

/// The 128 bits of an integer constant, sign extended.
pub fn cv_to_u128(cv: &ConstValue) -> (r: Option<u128>)
    ensures
        r == unsigned_of(*cv),
{
    match IntBits::from_const(*cv) {
        None => None,
        Some(b) => Some(b.extended()),
    }
}

/// A constant of the type of `cv` with the value `val`, if that type holds it;
/// a 128-bit type takes the bits as they are.
pub open spec fn with_value(cv: ConstValue, val: u128) -> Option<ConstValue> {
    match int_of(cv) {
        None => None,
        Some((ty, _)) => if ty.width() == 128 {
            Some(const_of(ty, ty.wrap(val as int)))
        } else if ty.holds(val as int) {
            Some(const_of(ty, val as int))
        } else {
            None
        },
    }
}

/// A constant of the type of `cv` with the value `val`.
pub fn cv_set_u128(cv: &ConstValue, val: u128) -> (r: Option<ConstValue>)
    ensures
        r == with_value(*cv, val),
{
    match IntBits::from_const(*cv) {
        None => None,
        Some(b) => {
            if b.ty.bits() == 128 {
                Some(b.ty.truncate(val).to_const())
            } else {
                match IntBits::from_magnitude(b.ty, val, false) {
                    None => None,
                    Some(c) => Some(c.to_const()),
                }
            }
        },
    }
}

/// Shift amounts are `i32` constants.
pub fn make_shift_const(n: u32) -> (r: ConstValue)
    requires
        n < 128,
    ensures
        r == ConstValue::I32(n as i32),
{
    ConstValue::I32(n as i32)
}

// ---- the pass --------------------------------------------------------------

/// The node that input `w` of node `i` stands for.
pub open spec fn operand(g: &DataFlowGraph, redirect: Map<u32, u32>, i: int, w: int) -> u32 {
    resolved(redirect, g.inputs_of(i)[w].0)
}

/// The exponent of operand `w` of node `i`, if it is a constant power of two
/// above 1 that no writeback overwrites and that only one node uses.
pub open spec fn power_operand(
    g: &DataFlowGraph,
    redirect: Map<u32, u32>,
    i: int,
    w: int,
) -> Option<u32> {
    let r = operand(g, redirect, i, w);
    if is_writeback_target(g, r) || r >= g.meta@.len() || g.meta@[r as int].const_value is None {
        None
    } else {
        match unsigned_of(g.meta@[r as int].const_value->0) {
            None => None,
            Some(v) => match exponent_of(v) {
                Some(n) => if n != 0 && r < g.downstreams@.len() && g.downstreams@[r as int]@.len() == 1 {
                    Some(n)
                } else {
                    None
                },
                None => None,
            },
        }
    }
}

/// Whether operand `w` of node `i` is a constant power of two above 1 that no
/// writeback overwrites, and who uses it is not listed.
pub open spec fn unlisted_operand(g: &DataFlowGraph, redirect: Map<u32, u32>, i: int, w: int) -> bool {
    let r = operand(g, redirect, i, w);
    &&& !is_writeback_target(g, r)
    &&& r < g.meta@.len()
    &&& g.meta@[r as int].const_value is Some
    &&& unsigned_of(g.meta@[r as int].const_value->0) is Some
    &&& exponent_of(unsigned_of(g.meta@[r as int].const_value->0)->0) is Some
    &&& exponent_of(unsigned_of(g.meta@[r as int].const_value->0)->0) != Some(0u32)
    &&& r >= g.downstreams@.len()
}

/// Whether the pass looks at node `i`: a retained binary operation without
/// side effects, on two inputs.
pub open spec fn reducible(
    g: &DataFlowGraph,
    dead: Set<u32>,
    redirect: Map<u32, u32>,
    i: int,
) -> bool {
    &&& stays(dead, redirect, i)
    &&& g.nodes@[i].kind == NodeKind::BinOp
    &&& !side_effect(g, i)
    &&& g.inputs_of(i).len() == 2
}

/// Which operand of node `i` is the power of two, if the node reduces: either
/// one of a multiplication, the second one of a division or remainder.
pub open spec fn reduced_operand(
    g: &DataFlowGraph,
    dead: Set<u32>,
    redirect: Map<u32, u32>,
    i: int,
) -> Option<int> {
    let id = g.nodes@[i].compute_fn.0;
    if !reducible(g, dead, redirect, i) {
        None
    } else if shl_for(id) is Some {
        if power_operand(g, redirect, i, 0) is Some {
            Some(0)
        } else if power_operand(g, redirect, i, 1) is Some {
            Some(1)
        } else {
            None
        }
    } else if (shr_for(id) is Some || mask_for(id) is Some) && power_operand(
        g,
        redirect,
        i,
        1,
    ) is Some {
        Some(1)
    } else {
        None
    }
}

/// The metadata after the reduction of node `i` with the constant `c` at `r`:
/// the node is no longer batched, and the constant is replaced.
pub open spec fn reduced_meta(
    meta: Seq<NodeMeta>,
    i: int,
    r: int,
    c: Option<ConstValue>,
) -> Seq<NodeMeta> {
    let m1 = meta.update(i, NodeMeta { batch_info: None, ..meta[i] });
    m1.update(r, NodeMeta { const_value: c, ..m1[r] })
}

/// `b` is `a` after node `i` has been looked at.
pub open spec fn strength_step(
    a: &DataFlowGraph,
    b: &DataFlowGraph,
    dead: Set<u32>,
    redirect: Map<u32, u32>,
    i: int,
) -> bool {
    let id = a.nodes@[i].compute_fn.0;
    match reduced_operand(a, dead, redirect, i) {
        None => *b == *a,
        Some(w) => {
            let r = operand(a, redirect, i, w);
            let n = power_operand(a, redirect, i, w)->0;
            &&& b.same_frame(a)
            &&& if mask_for(id) is Some {
                &&& b.nodes@ == a.nodes@.update(
                    i,
                    Node { compute_fn: ComputeFnId(mask_for(id)->0), ..a.nodes@[i] },
                )
                &&& b.inputs_pool@ == a.inputs_pool@
                &&& b.meta@ == reduced_meta(
                    a.meta@,
                    i,
                    r as int,
                    with_value(
                        a.meta@[r as int].const_value->0,
                        (unsigned_of(a.meta@[r as int].const_value->0)->0 - 1) as u128,
                    ),
                )
            } else {
                &&& b.nodes@ == a.nodes@.update(
                    i,
                    Node {
                        compute_fn: ComputeFnId(
                            if shl_for(id) is Some {
                                shl_for(id)->0
                            } else {
                                shr_for(id)->0
                            },
                        ),
                        inputs_offset: a.inputs_pool@.len() as u32,
                        input_count: 2,
                        ..a.nodes@[i]
                    },
                )
                &&& b.inputs_pool@ == a.inputs_pool@ + seq![a.inputs_of(i)[1 - w], NodeId(r)]
                &&& b.meta@ == reduced_meta(
                    a.meta@,
                    i,
                    r as int,
                    Some(ConstValue::I32(n as i32)),
                )
            }
        },
    }
}

/// Whether looking at node `i` gives it inputs that cannot be numbered.
pub open spec fn shift_overflows(a: &DataFlowGraph, dead: Set<u32>, redirect: Map<u32, u32>, i: int) -> bool {
    &&& reduced_operand(a, dead, redirect, i) is Some
    &&& mask_for(a.nodes@[i].compute_fn.0) is None
    &&& a.inputs_pool@.len() + 2 > u32::MAX
}

/// Whether looking at node `i` needs the users of a node that are not listed.
pub open spec fn misses_users(a: &DataFlowGraph, dead: Set<u32>, redirect: Map<u32, u32>, i: int) -> bool {
    let id = a.nodes@[i].compute_fn.0;
    &&& reducible(a, dead, redirect, i)
    &&& if shl_for(id) is Some {
        unlisted_operand(a, redirect, i, 0) || (power_operand(a, redirect, i, 0) is None && unlisted_operand(
            a,
            redirect,
            i,
            1,
        ))
    } else {
        (shr_for(id) is Some || mask_for(id) is Some) && unlisted_operand(a, redirect, i, 1)
    }
}

/// Whether node `i` cannot be looked at.
pub open spec fn reduction_stops(a: &DataFlowGraph, dead: Set<u32>, redirect: Map<u32, u32>, i: int) -> bool {
    shift_overflows(a, dead, redirect, i) || misses_users(a, dead, redirect, i)
}

/// Whether one of the nodes cannot be looked at, those before it looked at.
#[verifier::opaque]
pub open spec fn strength_stops(first: DataFlowGraph, dead: Set<u32>, redirect: Map<u32, u32>) -> bool {
    exists|gs: Seq<DataFlowGraph>, k: int|
        0 <= k < first.nodes@.len() && #[trigger] strength_starts(gs, first, dead, redirect, k)
            && #[trigger] reduction_stops(&gs[k], dead, redirect, k)
}

/// The graphs run from the first to that in which `k` nodes have been looked
/// at.
pub open spec fn strength_starts(
    gs: Seq<DataFlowGraph>,
    first: DataFlowGraph,
    dead: Set<u32>,
    redirect: Map<u32, u32>,
    k: int,
) -> bool {
    &&& gs.len() == k + 1
    &&& gs[0] == first
    &&& forall|j: int| 0 <= j < k ==> #[trigger] strength_step(&gs[j], &gs[j + 1], dead, redirect, j)
}

/// The graphs run from the first to the last node by node.
pub open spec fn strength_chain(
    gs: Seq<DataFlowGraph>,
    first: DataFlowGraph,
    last: DataFlowGraph,
    dead: Set<u32>,
    redirect: Map<u32, u32>,
) -> bool {
    &&& gs.len() == first.nodes@.len() + 1
    &&& gs[0] == first
    &&& gs[gs.len() - 1] == last
    &&& forall|k: int|
        0 <= k < gs.len() - 1 ==> #[trigger] strength_step(&gs[k], &gs[k + 1], dead, redirect, k)
}

/// Whether one of the steps reduces its node.
pub open spec fn reduces_any(gs: Seq<DataFlowGraph>, dead: Set<u32>, redirect: Map<u32, u32>) -> bool {
    exists|k: int| #![trigger gs[k]]
        0 <= k < gs.len() - 1 && reduced_operand(&gs[k], dead, redirect, k) is Some
}

/// Finds the exponent of an operand; nothing where its users are not listed.
fn find_power(
    graph: &DataFlowGraph,
    ctx: &OptimizerContext,
    wb_targets: &IdSet,
    i: usize,
    w: usize,
) -> (r: Option<Option<u32>>)
    requires
        graph.wf(),
        i < graph.nodes@.len(),
        acyclic(ctx.redirect@),
        w < graph.inputs_of(i as int).len(),
        forall|id: u32| #[trigger]
            wb_targets@.contains(id) <==> is_writeback_target(graph, id),
    ensures
        match r {
            Some(n) => {
                &&& !unlisted_operand(graph, ctx.redirect@, i as int, w as int)
                &&& n == power_operand(graph, ctx.redirect@, i as int, w as int)
                &&& n is Some ==> operand(graph, ctx.redirect@, i as int, w as int) < graph.nodes@.len()
                    && n->0 < 128
            },
            None => unlisted_operand(graph, ctx.redirect@, i as int, w as int),
        },
{
    let inputs = graph.inputs(i);
    let r = ctx.resolve(inputs[w]);
    if wb_targets.contains(r.0) {
        return Some(None);
    }
    let ridx = r.0 as usize;
    if ridx >= graph.meta.len() {
        return Some(None);
    }
    let cv = match graph.meta[ridx].const_value {
        None => {
            return Some(None);
        },
        Some(cv) => cv,
    };
    let val = match cv_to_u128(&cv) {
        None => {
            return Some(None);
        },
        Some(v) => v,
    };
    let n = match power_of_two(val) {
        None => {
            return Some(None);
        },
        Some(n) => n,
    };
    if n == 0 {
        return Some(None);
    }
    if ridx >= graph.downstreams.len() {
        return None;
    }
    if graph.downstreams[ridx].len() != 1 {
        return Some(None);
    }
    Some(Some(n))
}

fn write_meta(graph: &mut DataFlowGraph, i: usize, r: usize, c: Option<ConstValue>)
    requires
        i < old(graph).meta@.len(),
        r < old(graph).meta@.len(),
    ensures
        final(graph).meta@ == reduced_meta(old(graph).meta@, i as int, r as int, c),
        final(graph).same_but_meta(old(graph)),
{
    let mut m = graph.meta[i].clone();
    m.batch_info = None;
    graph.meta.set(i, m);
    let mut k = graph.meta[r].clone();
    k.const_value = c;
    graph.meta.set(r, k);
}

/// Rewrites node `i` into a shift of `inputs[1 - w]` by the constant at `r`.
fn write_shift(
    graph: &mut DataFlowGraph,
    ctx: &OptimizerContext,
    i: usize,
    w: usize,
    n: u32,
    cf: ComputeFnId,
)
    requires
        old(graph).wf(),
        i < old(graph).nodes@.len(),
        acyclic(ctx.redirect@),
        old(graph).inputs_of(i as int).len() == 2,
        w < 2,
        n < 128,
        operand(old(graph), ctx.redirect@, i as int, w as int) < old(graph).nodes@.len(),
        old(graph).inputs_pool@.len() + 2 <= u32::MAX,
    ensures
        ({
            let a = old(graph);
            let r = operand(a, ctx.redirect@, i as int, w as int);
            &&& final(graph).same_frame(a)
            &&& final(graph).nodes@ == a.nodes@.update(
                i as int,
                Node {
                    compute_fn: cf,
                    inputs_offset: a.inputs_pool@.len() as u32,
                    input_count: 2,
                    ..a.nodes@[i as int]
                },
            )
            &&& final(graph).inputs_pool@ == a.inputs_pool@ + seq![
                a.inputs_of(i as int)[1 - w as int],
                NodeId(r),
            ]
            &&& final(graph).meta@ == reduced_meta(
                a.meta@,
                i as int,
                r as int,
                Some(ConstValue::I32(n as i32)),
            )
        }),
{
    let ghost a = *graph;
    let (other, target) = {
        let inputs = graph.inputs(i);
        (inputs[1 - w], ctx.resolve(inputs[w]))
    };
    write_meta(graph, i, target.0 as usize, Some(make_shift_const(n)));
    let pair = [other, target];
    let offset = graph.inputs_pool.push(pair.as_slice());
    assert(pair@ =~= seq![other, target]);
    let mut node = graph.nodes[i];
    node.compute_fn = cf;
    node.inputs_offset = offset;
    node.input_count = 2;
    graph.nodes.set(i, node);
}

/// A step keeps what later steps rely on.
proof fn lemma_step_frame(
    a: &DataFlowGraph,
    b: &DataFlowGraph,
    dead: Set<u32>,
    redirect: Map<u32, u32>,
    i: int,
)
    requires
        a.wf(),
        0 <= i < a.nodes@.len(),
        !reduction_stops(a, dead, redirect, i),
        strength_step(a, b, dead, redirect, i),
    ensures
        b.wf(),
        b.nodes@.len() == a.nodes@.len(),
        forall|id: u32| #[trigger] is_writeback_target(b, id) <==> is_writeback_target(a, id),
{
    assert forall|k: int| #![trigger b.nodes@[k]] 0 <= k < b.nodes@.len() implies b.nodes@[k].inputs_offset
        + b.nodes@[k].input_count <= b.inputs_pool@.len() by {
        assert(a.nodes@[k].inputs_offset + a.nodes@[k].input_count <= a.inputs_pool@.len());
    }
    assert forall|id: u32| #[trigger] is_writeback_target(b, id) <==> is_writeback_target(a, id) by {
        if is_writeback_target(b, id) {
            let k = choose|k: int|
                0 <= k < b.meta@.len() && (#[trigger] b.meta@[k]).writeback_target == Some(
                    NodeId(id),
                );
            assert(a.meta@[k].writeback_target == Some(NodeId(id)));
        }
        if is_writeback_target(a, id) {
            let k = choose|k: int|
                0 <= k < a.meta@.len() && (#[trigger] a.meta@[k]).writeback_target == Some(
                    NodeId(id),
                );
            assert(b.meta@[k].writeback_target == Some(NodeId(id)));
        }
    }
}

/// Looks at one node; tells whether it was reduced, and nothing where that
/// cannot be done.
fn reduce_node(graph: &mut DataFlowGraph, ctx: &OptimizerContext, wb_targets: &IdSet, i: usize) -> (r:
    Option<bool>)
    requires
        old(graph).wf(),
        i < old(graph).nodes@.len(),
        acyclic(ctx.redirect@),
        forall|id: u32| #[trigger]
            wb_targets@.contains(id) <==> is_writeback_target(old(graph), id),
    ensures
        match r {
            Some(reduced) => {
                &&& !reduction_stops(old(graph), ctx.dead@, ctx.redirect@, i as int)
                &&& strength_step(old(graph), final(graph), ctx.dead@, ctx.redirect@, i as int)
                &&& reduced == (reduced_operand(old(graph), ctx.dead@, ctx.redirect@, i as int) is Some)
            },
            None => {
                &&& reduction_stops(old(graph), ctx.dead@, ctx.redirect@, i as int)
                &&& *final(graph) == *old(graph)
            },
        },
{
    let ghost dead = ctx.dead@;
    let ghost red = ctx.redirect@;
    let node = graph.nodes[i];
    if !ctx.is_live(NodeId(i as u32)) || node.kind != NodeKind::BinOp || has_side_effect(graph, i)
        || node.input_count != 2 {
        assert(!reducible(graph, dead, red, i as int));
        return Some(false);
    }
    let cf = node.compute_fn;
    let room: bool = graph.inputs_pool.len() as u64 + 2 <= 0xFFFF_FFFF;
    if let Some(shl) = mul_to_shl(cf) {
        match find_power(graph, ctx, wb_targets, i, 0) {
            None => {
                return None;
            },
            Some(Some(n)) => {
                if !room {
                    return None;
                }
                write_shift(graph, ctx, i, 0, n, shl);
                return Some(true);
            },
            Some(None) => {},
        }
        match find_power(graph, ctx, wb_targets, i, 1) {
            None => {
                return None;
            },
            Some(Some(n)) => {
                if !room {
                    return None;
                }
                write_shift(graph, ctx, i, 1, n, shl);
                return Some(true);
            },
            Some(None) => {},
        }
        return Some(false);
    }
    if let Some(shr) = div_to_shr(cf) {
        match find_power(graph, ctx, wb_targets, i, 1) {
            None => {
                return None;
            },
            Some(Some(n)) => {
                if !room {
                    return None;
                }
                write_shift(graph, ctx, i, 1, n, shr);
                return Some(true);
            },
            Some(None) => {},
        }
        return Some(false);
    }
    if let Some(mask) = mod_to_bitand(cf) {
        let found = match find_power(graph, ctx, wb_targets, i, 1) {
            None => {
                return None;
            },
            Some(o) => o,
        };
        if let Some(n) = found {
            let r = {
                let inputs = graph.inputs(i);
                ctx.resolve(inputs[1])
            };
            let cv = graph.meta[r.0 as usize].const_value.unwrap();
            let val = cv_to_u128(&cv).unwrap();
            proof {
                lemma_pow2_pos(n as nat);
                let chosen = exponent_of(val);
                assert(exponent_is(val, chosen)) by {
                    lemma_exponent_exists(val);
                }
            }
            let new_cv = cv_set_u128(&cv, val - 1);
            write_meta(graph, i, r.0 as usize, new_cv);
            let mut new_node = node;
            new_node.compute_fn = mask;
            graph.nodes.set(i, new_node);
            return Some(true);
        }
    }
    Some(false)
}

proof fn lemma_exponent_exists(v: u128)
    ensures
        exponent_is(v, exponent_of(v)),
{
    if exists|e: nat| e < 128 && v == #[trigger] pow2(e) {
        let e = choose|e: nat| e < 128 && v == #[trigger] pow2(e);
        assert(exponent_is(v, Some(e as u32)));
    } else {
        assert(exponent_is(v, None));
    }
}

/// Reduces multiplications, unsigned divisions and unsigned remainders by
/// powers of two. Stops before a node that cannot be looked at; tells whether it
/// came to the end.
pub fn pass_strength_reduction(graph: &mut DataFlowGraph, ctx: &mut OptimizerContext) -> (done: bool)
    requires
        old(graph).wf(),
        acyclic(old(ctx).redirect@),
    ensures
        final(graph).wf(),
        final(graph).subgraphs@ == old(graph).subgraphs@,
        done && final(ctx).mutated == false ==> *final(graph) == *old(graph),
        !done ==> strength_stops(*old(graph), old(ctx).dead@, old(ctx).redirect@),
        done ==> exists|gs: Seq<DataFlowGraph>| #[trigger]
            strength_chain(gs, *old(graph), *final(graph), old(ctx).dead@, old(ctx).redirect@)
                && *final(ctx) == (OptimizerContext {
                mutated: old(ctx).mutated || reduces_any(gs, old(ctx).dead@, old(ctx).redirect@),
                ..*old(ctx)
            }),
{
    let ghost first = *graph;
    let ghost dead = ctx.dead@;
    let ghost red = ctx.redirect@;
    let wb_targets = collect_writeback_targets(graph);
    let n = graph.nodes.len();
    let mut changed = false;
    let ghost mut chain = seq![first];
    let mut i: usize = 0;
    while i < n
        invariant
            first == *old(graph),
            n == graph.nodes@.len() == first.nodes@.len(),
            graph.wf(),
            graph.subgraphs@ == first.subgraphs@,
            *ctx == *old(ctx),
            dead == ctx.dead@,
            red == ctx.redirect@,
            acyclic(red),
            i <= n,
            forall|id: u32| #[trigger]
                wb_targets@.contains(id) <==> is_writeback_target(graph, id),
            chain.len() == i + 1,
            chain[0] == first,
            chain[i as int] == *graph,
            !changed ==> *graph == first,
            forall|k: int| #![trigger chain[k]]
                0 <= k < i ==> strength_step(&chain[k], &chain[k + 1], dead, red, k),
            changed <==> exists|k: int| #![trigger chain[k]]
                0 <= k < i && reduced_operand(&chain[k], dead, red, k) is Some,
        decreases n - i,
    {
        let ghost before = *graph;
        let ghost was = chain;
        let ghost had = changed;
        let reduced: bool = match reduce_node(graph, ctx, &wb_targets, i) {
            Some(b) => b,
            None => {
                proof {
                    assert forall|j: int| 0 <= j < i implies #[trigger] strength_step(
                        &chain[j],
                        &chain[j + 1],
                        dead,
                        red,
                        j,
                    ) by {
                        assert(chain[j] == was[j]);
                    }
                    reveal(strength_stops);
                    assert(strength_starts(chain, first, dead, red, i as int));
                    assert(reduction_stops(&chain[i as int], dead, red, i as int));
                }
                return false;
            },
        };
        proof {
            lemma_step_frame(&before, graph, dead, red, i as int);
            chain = was.push(*graph);
            assert forall|k: int| #![trigger chain[k]] 0 <= k < i + 1 implies strength_step(
                &chain[k],
                &chain[k + 1],
                dead,
                red,
                k,
            ) by {
                assert(chain[k] == was[k]);
                if k < i {
                    assert(chain[k + 1] == was[k + 1]);
                }
            }
            if had {
                let k = choose|k: int| #![trigger was[k]]
                    0 <= k < i && reduced_operand(&was[k], dead, red, k) is Some;
                assert(chain[k] == was[k]);
            }
            if reduced {
                assert(chain[i as int] == before);
            }
            if exists|k: int| #![trigger chain[k]]
                0 <= k < i + 1 && reduced_operand(&chain[k], dead, red, k) is Some {
                let k = choose|k: int| #![trigger chain[k]]
                    0 <= k < i + 1 && reduced_operand(&chain[k], dead, red, k) is Some;
                assert(chain[k] == was[k]);
            }
        }
        if reduced {
            changed = true;
        }
        i = i + 1;
    }
    proof {
        assert(strength_chain(chain, first, *graph, dead, red));
    }
    if changed {
        ctx.mutated = true;
    }
    true
}

// ---- laws ------------------------------------------------------------------

/// The replacing operation is the shift or mask of the same type.
pub proof fn law_reduction_keeps_the_type(id: u32)
    ensures
        shl_for(id) is Some ==> int_op_of(id) == Some((IntOp::Mul, (int_op_of(id)->0).1))
            && int_op_of(shl_for(id)->0) == Some((IntOp::Shl, (int_op_of(id)->0).1)),
        shr_for(id) is Some ==> int_op_of(id) == Some((IntOp::Div, (int_op_of(id)->0).1))
            && int_op_of(shr_for(id)->0) == Some((IntOp::Shr, (int_op_of(id)->0).1))
            && !(int_op_of(id)->0).1.is_signed(),
        mask_for(id) is Some ==> int_op_of(id) == Some((IntOp::Mod, (int_op_of(id)->0).1))
            && int_op_of(mask_for(id)->0) == Some((IntOp::BitAnd, (int_op_of(id)->0).1))
            && !(int_op_of(id)->0).1.is_signed(),
{
}

/// Multiplying by a constant of the type that is a power of two is shifting
/// left by its exponent, for every number.
pub proof fn law_reduced_multiplication_keeps_values(ty: IntTy, v: int, n: u32, x: int)
    requires
        ty.holds(v),
        exponent_is((v % (u128::MAX + 1)) as u128, Some(n)),
    ensures
        n < ty.width(),
        int_result(IntOp::Mul, ty, x, v) == int_result(IntOp::Shl, ty, x, n as int),
{
    lemma_widths(ty);
    let m = ty.modulus();
    let big: int = u128::MAX + 1;
    let p = pow2(n as nat) as int;
    assert(usize::BITS == 32 || usize::BITS == 64);
    if v < 0 {
        lemma_fundamental_div_mod_converse(v, big, -1, v + big);
        assert(v + big == p);
    } else {
        lemma_fundamental_div_mod_converse(v, big, 0, v);
    }
    if n >= ty.width() {
        if n > ty.width() {
            lemma_pow2_strictly_increases(ty.width(), n as nat);
        }
        assert(p >= m);
        if v < 0 {
            // p == big + v lies in the upper half of 128 bits, so p == 2^127.
            lemma_pow2_unfold(128);
            if n < 127 {
                lemma_pow2_strictly_increases(n as nat, 127);
            }
            assert(v == p - big);
        }
        assert(false);
    }
    lemma_residue(ty, v);
    lemma_residue(ty, p);
    lemma_mul_mod_noop_right(x, v, m);
    lemma_mul_mod_noop_right(x, p, m);
    lemma_mod_twice(v, big);
    assert(v % m == p % m);
}

/// Dividing by a constant of an unsigned type that is a power of two is
/// shifting right by its exponent.
pub proof fn law_reduced_division_keeps_values(ty: IntTy, v: int, n: u32, x: int)
    requires
        !ty.is_signed(),
        ty.holds(v),
        ty.holds(x),
        exponent_is((v % (u128::MAX + 1)) as u128, Some(n)),
    ensures
        n < ty.width(),
        int_result(IntOp::Div, ty, x, v) == int_result(IntOp::Shr, ty, x, n as int),
{
    lemma_unsigned_power(ty, v, n);
    crate::arith::law_unsigned_div_by_power_is_shr(ty, x, n as nat);
}

/// The remainder by a constant of an unsigned type that is a power of two is
/// the bitwise and with the constant less one.
pub proof fn law_reduced_remainder_keeps_values(ty: IntTy, v: int, n: u32, x: int)
    requires
        !ty.is_signed(),
        ty.holds(v),
        ty.holds(x),
        exponent_is((v % (u128::MAX + 1)) as u128, Some(n)),
    ensures
        int_result(IntOp::Mod, ty, x, v) == int_result(IntOp::BitAnd, ty, x, v - 1),
{
    lemma_unsigned_power(ty, v, n);
    crate::arith::law_unsigned_rem_by_power_is_mask(ty, x, n as nat);
}

proof fn lemma_unsigned_power(ty: IntTy, v: int, n: u32)
    requires
        !ty.is_signed(),
        ty.holds(v),
        exponent_is((v % (u128::MAX + 1)) as u128, Some(n)),
    ensures
        v == pow2(n as nat),
        n < ty.width(),
{
    lemma_widths(ty);
    lemma_fundamental_div_mod_converse(v, u128::MAX + 1, 0, v);
    if n >= ty.width() {
        if n > ty.width() {
            lemma_pow2_strictly_increases(ty.width(), n as nat);
        }
    }
}

/// A node that the pass rewrites computes what it computed, on every number: it
/// had a constant operand that it alone used and that nothing writes back to,
/// and the other operand now comes first. Nothing but the node and that
/// constant changes.
pub proof fn law_rewritten_nodes_compute_the_same(
    a: &DataFlowGraph,
    b: &DataFlowGraph,
    dead: Set<u32>,
    redirect: Map<u32, u32>,
    i: int,
) -> (w: int)
    requires
        strength_step(a, b, dead, redirect, i),
        a.wf(),
        a.inputs_pool@.len() + 2 <= u32::MAX,
        0 <= i < a.nodes@.len(),
        a.nodes@[i] != b.nodes@[i],
    ensures
        w == 0 || w == 1,
        !dead.contains(i as u32) && !redirect.contains_key(i as u32),
        a.inputs_of(i).len() == 2 && b.inputs_of(i).len() == 2,
        b.nodes@[i].kind == a.nodes@[i].kind,
        int_op_of(a.nodes@[i].compute_fn.0) is Some && int_op_of(b.nodes@[i].compute_fn.0) is Some,
        (int_op_of(a.nodes@[i].compute_fn.0)->0).1 == (int_op_of(b.nodes@[i].compute_fn.0)->0).1,
        resolved(redirect, b.inputs_of(i)[0].0) == resolved(redirect, a.inputs_of(i)[1 - w].0),
        ({
            let r = resolved(redirect, a.inputs_of(i)[w].0) as int;
            let ty = (int_op_of(a.nodes@[i].compute_fn.0)->0).1;
            let before = int_of(a.meta@[r].const_value->0);
            let after = int_of(b.meta@[r].const_value->0);
            &&& b.inputs_of(i)[1].0 == r || b.inputs_of(i)[1] == a.inputs_of(i)[w]
            &&& r < a.meta@.len() && a.downstreams@[r]@.len() == 1
            &&& forall|k: int|
                0 <= k < a.meta@.len() ==> (#[trigger] a.meta@[k]).writeback_target != Some(NodeId(r as u32))
            &&& a.meta@[r].const_value is Some && before is Some
            &&& forall|x: int|
                #![trigger ty.holds(x)]
                ty.holds(x) && (before->0).0 == ty ==> b.meta@[r].const_value is Some && after is Some && int_result(
                    (int_op_of(b.nodes@[i].compute_fn.0)->0).0,
                    ty,
                    x,
                    (after->0).1,
                ) == int_result(
                    (int_op_of(a.nodes@[i].compute_fn.0)->0).0,
                    ty,
                    if w == 0 {
                        (before->0).1
                    } else {
                        x
                    },
                    if w == 0 {
                        x
                    } else {
                        (before->0).1
                    },
                )
            &&& forall|k: int| #![trigger b.meta@[k]]
                0 <= k < a.meta@.len() && k != r ==> b.meta@[k].const_value == a.meta@[k].const_value
        }),
        b.nodes@.len() == a.nodes@.len(),
        forall|k: int| #![trigger b.nodes@[k]]
            0 <= k < a.nodes@.len() && k != i ==> b.nodes@[k] == a.nodes@[k] && b.inputs_of(k) == a.inputs_of(k),
{
    let id = a.nodes@[i].compute_fn.0;
    let w = reduced_operand(a, dead, redirect, i)->0;
    let r = operand(a, redirect, i, w);
    let n = power_operand(a, redirect, i, w)->0;
    let c = a.meta@[r as int].const_value->0;
    let ty = block_ty((id - 92) / 12);
    let (cty, v) = int_of(c)->0;
    law_reduction_keeps_the_type(id);
    lemma_widths(cty);
    assert(usize::BITS == 32 || usize::BITS == 64);
    assert(cty.holds(v));
    lemma_exponent_exists(unsigned_of(c)->0);
    lemma_exponent(unsigned_of(c)->0, Some(n));
    assert forall|k: int| #![trigger b.nodes@[k]] 0 <= k < a.nodes@.len() && k != i implies b.nodes@[k] == a.nodes@[k]
        && b.inputs_of(k) == a.inputs_of(k) by {
        assert(a.nodes@[k].inputs_offset + a.nodes@[k].input_count <= a.inputs_pool@.len());
        assert(b.inputs_of(k) =~= a.inputs_of(k));
    }
    if mask_for(id) is Some {
        assert(b.inputs_of(i) =~= a.inputs_of(i));
        if cty == ty {
            lemma_unsigned_power(ty, v, n);
            lemma_fundamental_div_mod_converse(v, u128::MAX + 1, 0, v);
            lemma_pow2_pos(n as nat);
            assert(ty.holds(v - 1));
            if ty.width() == 128 {
                lemma_fundamental_div_mod_converse(v - 1, ty.modulus(), 0, v - 1);
            }
            assert(unsigned_of(c)->0 - 1 == v - 1);
            assert(with_value(c, (v - 1) as u128) == Some(const_of(ty, v - 1)));
            assert(int_of(b.meta@[r as int].const_value->0) == Some((ty, v - 1)));
            assert forall|x: int| #![trigger ty.holds(x)] ty.holds(x) implies int_result(IntOp::BitAnd, ty, x, v - 1)
                == int_result(IntOp::Mod, ty, x, v) by {
                law_reduced_remainder_keeps_values(ty, v, n, x);
            }
        }
    } else {
        assert(b.inputs_of(i) =~= seq![a.inputs_of(i)[1 - w], NodeId(r)]);
        if cty == ty {
            assert forall|x: int| #![trigger ty.holds(x)] ty.holds(x) implies int_result(
                (int_op_of(b.nodes@[i].compute_fn.0)->0).0,
                ty,
                x,
                n as int,
            ) == int_result(
                (int_op_of(id)->0).0,
                ty,
                if w == 0 {
                    v
                } else {
                    x
                },
                if w == 0 {
                    x
                } else {
                    v
                },
            ) by {
                if shl_for(id) is Some {
                    law_reduced_multiplication_keeps_values(ty, v, n, x);
                    lemma_mul_is_commutative(x, v);
                } else {
                    law_reduced_division_keeps_values(ty, v, n, x);
                }
            }
        }
    }
    w
}

} // verus!
