use kuzo::analysis::report::{analyze, is_analyzable, AnalysisReport};
use kuzo::arith::{IntBits, IntOp, apply_int};
use kuzo::ast::sema::SemaResult;
use kuzo::ast::tree::Module;
use kuzo::fx::{IdMap, IdSet};
use kuzo::ir::compute_fns::{
    pure_compute_fn_set, CF_ADD_I32, CF_CALL_LAUNCH, CF_MUL_U32, CF_NOOP, CF_RANGE, CF_SEQ,
};
use kuzo::ir::graph::{DataFlowGraph, InputsPool, VtableEntry};
use kuzo::ir::region::RegionTree;
use kuzo::ir::types::{
    ComputeFnId, ConstValue, GateBranch, GateBranches, LoopKind, Node, NodeId, NodeKind, NodeRefSite, SubGraph,
    SubGraphId,
};
use kuzo::pass::checks::{can_hoist, can_inline, can_unroll, is_rebuildable, is_walkable, is_wf};
use kuzo::pass::const_fold::{fold_candidates, make_const, pass_const_fold};
use kuzo::pass::context::OptimizerContext;
use kuzo::pass::copy_prop::pass_copy_prop;
use kuzo::pass::cse::pass_cse;
use kuzo::pass::dce::{pass_dce, pass_func_dce};
use kuzo::pass::driver::{
    check_gate_in_branch, fixpoint_measure, optimize, optimize_with_analysis, optimize_with_settings, run_round,
    FixpointEnd, OptLevel, OptSettings, UnitEnd,
};
use kuzo::pass::fold::try_fold;
use kuzo::pass::inline::collect_inline_candidates;
use kuzo::pass::liveness::{compute_live_nodes, has_side_effect};
use kuzo::pass::loops::const_to_i128;
use kuzo::pass::strength::{
    cv_set_u128, cv_to_u128, div_to_shr, make_shift_const, mod_to_bitand, mul_to_shl, pass_strength_reduction,
    power_of_two,
};
use kuzo::pass::unroll::make_const_value;

fn subgraph(id: u32, start: u32, end: u32, entry: u32, ret: u32) -> SubGraph {
    SubGraph {
        id: SubGraphId(id),
        node_range: (NodeId(start), NodeId(end)),
        param_count: 0,
        entry_node: NodeId(entry),
        return_node: NodeId(ret),
        has_suspend: false,
        event_source_decls: Vec::new(),
        defer_table: Vec::new(),
        loop_kind: LoopKind::NotLoop,
        loop_parent_sg: None,
        cond_node: None,
        function_id: id,
        iter_next_node: None,
        upvalue_count: 0,
        upvalue_outer_nodes: Vec::new(),
        nested_ranges: Vec::new(),
        reset_plan: None,
    }
}

fn constant(g: &mut DataFlowGraph, v: ConstValue) -> NodeId {
    let n = g.add_node_raw(NodeKind::Const, &[], ComputeFnId(CF_NOOP));
    g.set_const_value(n, v);
    n
}

fn int_of(g: &DataFlowGraph, n: usize) -> Option<i128> {
    g.meta[n].const_value.as_ref().and_then(const_to_i128)
}

/// Two constants and a sum of them that nobody uses.
fn tiny_graph() -> DataFlowGraph {
    let mut g = DataFlowGraph::new();
    let off = g.inputs_pool.push(&[]);
    g.add_node(Node { kind: NodeKind::Const, input_count: 0, inputs_offset: off, compute_fn: ComputeFnId(CF_NOOP) });
    g.set_const_value(NodeId(0), ConstValue::I32(1));
    let off = g.inputs_pool.push(&[]);
    g.add_node(Node { kind: NodeKind::Const, input_count: 0, inputs_offset: off, compute_fn: ComputeFnId(CF_NOOP) });
    g.set_const_value(NodeId(1), ConstValue::I32(2));
    let off = g.inputs_pool.push(&[NodeId(0), NodeId(1)]);
    g.add_node(Node { kind: NodeKind::BinOp, input_count: 2, inputs_offset: off, compute_fn: ComputeFnId(1) });
    g.add_subgraph(subgraph(0, 0, 3, 0, 0));
    g.set_entry_subgraph(SubGraphId(0));
    g.compute_downstreams();
    g
}

/// `(1 + 2) + (1 + 2)`, returned.
fn sum_graph() -> DataFlowGraph {
    let mut g = DataFlowGraph::new();
    let a = constant(&mut g, ConstValue::I32(1));
    let b = constant(&mut g, ConstValue::I32(2));
    let x = g.add_node_raw(NodeKind::BinOp, &[a, b], ComputeFnId(CF_ADD_I32));
    let y = g.add_node_raw(NodeKind::BinOp, &[a, b], ComputeFnId(CF_ADD_I32));
    let z = g.add_node_raw(NodeKind::BinOp, &[x, y], ComputeFnId(CF_ADD_I32));
    g.add_subgraph(subgraph(0, 0, 5, 0, z.0));
    g.set_entry_subgraph(SubGraphId(0));
    g.compute_downstreams();
    g
}

#[test]
fn dead_nodes_go() {
    let mut g = tiny_graph();
    let unfolded = OptSettings { no_fold: true, ..OptSettings::default() };
    optimize_with_settings(&mut g, None, OptLevel::O1, &unfolded);
    assert_eq!(g.entry_subgraph, Some(SubGraphId(0)));
    // The sum goes; constants stay.
    assert_eq!(g.node_count(), 2);
    assert_eq!((int_of(&g, 0), int_of(&g, 1)), (Some(1), Some(2)));
    assert_eq!(g.subgraphs[0].node_range, (NodeId(0), NodeId(2)));
    let mut g = tiny_graph();
    optimize_with_analysis(&mut g, None, OptLevel::O1);
    assert_eq!(g.node_count(), 3);
    assert_eq!(int_of(&g, 2), Some(3));
}

#[test]
fn level_zero_changes_nothing() {
    let mut g = tiny_graph();
    optimize_with_analysis(&mut g, None, OptLevel::O0);
    assert_eq!(g.node_count(), 3);
    assert!(optimize_with_settings(&mut g, None, OptLevel::O0, &OptSettings::default()).is_none());
    assert_eq!(OptLevel::default(), OptLevel::O2);
}

#[test]
fn constants_fold_through() {
    let mut g = sum_graph();
    optimize(&mut g);
    let ret = g.subgraphs[0].return_node.0 as usize;
    assert_eq!(g.nodes[ret].kind, NodeKind::Const);
    assert_eq!(int_of(&g, ret), Some(6));
    assert!(is_walkable(&g));
}

#[test]
fn rounds_end_when_nothing_changes() {
    let mut g = sum_graph();
    let why = optimize_with_settings(&mut g, None, OptLevel::O1, &OptSettings::default());
    assert_eq!(why, Some(FixpointEnd::Converged));
    let mut g = sum_graph();
    let limited = OptSettings { max_rounds: Some(1), ..OptSettings::default() };
    assert_eq!(optimize_with_settings(&mut g, None, OptLevel::O1, &limited), Some(FixpointEnd::Capped));
    let mut g = sum_graph();
    let hasty = OptSettings { stall_window: Some(0), ..OptSettings::default() };
    assert_eq!(optimize_with_settings(&mut g, None, OptLevel::O1, &hasty), Some(FixpointEnd::Stalled));
}

#[test]
fn unfit_graphs_are_left_as_they_were() {
    let mut g = sum_graph();
    // A subgraph that is anchored outside the graph cannot be compacted.
    g.subgraphs[0].return_node = NodeId(77);
    assert!(!is_walkable(&g));
    let nodes_before = g.nodes.len();
    let pure = pure_compute_fn_set();
    assert_eq!(run_round(&mut g, &pure, &OptSettings::default()), UnitEnd::Stopped);
    assert_eq!(g.nodes.len(), nodes_before);
    assert_eq!(g.nodes[4].kind, NodeKind::BinOp);
    assert_eq!(g.entry_subgraph, Some(SubGraphId(0)));
    let why = optimize_with_settings(&mut g, None, OptLevel::O1, &OptSettings::default());
    assert_eq!(why, Some(FixpointEnd::Stopped));
    assert_eq!(g.nodes.len(), nodes_before);
}

#[test]
fn common_subexpressions_merge() {
    let g = sum_graph();
    let mut ctx = OptimizerContext::new();
    pass_cse(&g, &mut ctx, &pure_compute_fn_set());
    assert_eq!(ctx.redirect.get(3), Some(2));
    assert_eq!(ctx.redirect.get(2), None);
    assert_eq!(ctx.resolve(NodeId(3)), NodeId(2));
    assert!(!ctx.is_live(NodeId(3)));
    assert!(ctx.has_changes());
    pass_copy_prop(&g, &mut ctx);
    pass_dce(&g, &mut ctx, &pure_compute_fn_set());
    assert!(is_rebuildable(&g, &ctx.dead, &ctx.redirect, &ctx.dead_sgs));
}

#[test]
fn compaction_renumbers() {
    let mut g = tiny_graph();
    let mut dead = IdSet::new();
    dead.insert(2);
    let table = g.rebuild(&dead, &IdMap::new(), &IdSet::new());
    assert_eq!(table, vec![Some(NodeId(0)), Some(NodeId(1)), None]);
    assert_eq!(g.node_count(), 2);
}

#[test]
fn references_to_dead_nodes_are_refused() {
    let g = tiny_graph();
    let mut dead = IdSet::new();
    dead.insert(0);
    assert!(!is_rebuildable(&g, &dead, &IdMap::new(), &IdSet::new()));
}

#[test]
fn uncalled_functions_go() {
    let mut g = DataFlowGraph::new();
    let a = constant(&mut g, ConstValue::I32(1));
    let b = constant(&mut g, ConstValue::I32(2));
    g.add_subgraph(subgraph(0, 0, 1, a.0, a.0));
    g.add_subgraph(subgraph(1, 1, 2, b.0, b.0));
    g.set_entry_subgraph(SubGraphId(0));
    g.compute_downstreams();
    let mut ctx = OptimizerContext::new();
    pass_func_dce(&g, &mut ctx);
    assert!(ctx.dead.contains(1) && !ctx.dead.contains(0));
    assert!(ctx.dead_sgs.contains(1) && !ctx.dead_sgs.contains(0));
    optimize(&mut g);
    assert_eq!(g.node_count(), 1);
    assert_eq!(g.subgraphs.len(), 1);
}

#[test]
fn small_functions_are_inlined() {
    let mut g = DataFlowGraph::new();
    // The callee: its parameter plus one.
    let p = g.add_node_raw(NodeKind::Const, &[], ComputeFnId(CF_NOOP));
    let one = constant(&mut g, ConstValue::I32(1));
    let sum = g.add_node_raw(NodeKind::BinOp, &[p, one], ComputeFnId(CF_ADD_I32));
    // The caller: the callee on forty-one.
    let arg = constant(&mut g, ConstValue::I32(41));
    let call = g.add_node_raw(NodeKind::Call, &[arg], ComputeFnId(CF_CALL_LAUNCH));
    g.set_call_target(call, SubGraphId(0));
    let mut callee = subgraph(0, 0, 3, p.0, sum.0);
    callee.param_count = 1;
    g.add_subgraph(callee);
    g.add_subgraph(subgraph(1, 3, 5, arg.0, call.0));
    g.set_entry_subgraph(SubGraphId(1));
    g.compute_downstreams();
    assert!(can_inline(&g));
    let sites = collect_inline_candidates(&g);
    assert_eq!(sites.len(), 1);
    assert_eq!(fixpoint_measure(&g), (1, 5));
    optimize(&mut g);
    assert_eq!(fixpoint_measure(&g).0, 0);
    let entry = g.entry_subgraph.unwrap().0 as usize;
    let ret = g.subgraphs[entry].return_node.0 as usize;
    assert_eq!(g.nodes[ret].compute_fn, ComputeFnId(CF_SEQ));
    assert_eq!(int_of(&g, g.inputs(ret)[0].0 as usize), Some(42));
}

#[test]
fn inlining_can_be_limited() {
    let mut g = DataFlowGraph::new();
    let p = g.add_node_raw(NodeKind::Const, &[], ComputeFnId(CF_NOOP));
    let one = constant(&mut g, ConstValue::I32(1));
    let sum = g.add_node_raw(NodeKind::BinOp, &[p, one], ComputeFnId(CF_ADD_I32));
    let arg = constant(&mut g, ConstValue::I32(41));
    let call = g.add_node_raw(NodeKind::Call, &[arg], ComputeFnId(CF_CALL_LAUNCH));
    g.set_call_target(call, SubGraphId(0));
    let mut callee = subgraph(0, 0, 3, p.0, sum.0);
    callee.param_count = 1;
    g.add_subgraph(callee);
    g.add_subgraph(subgraph(1, 3, 5, arg.0, call.0));
    g.set_entry_subgraph(SubGraphId(1));
    g.compute_downstreams();
    let none = OptSettings { inline_limit: Some(0), ..OptSettings::default() };
    optimize_with_settings(&mut g, None, OptLevel::O2, &none);
    assert_eq!(fixpoint_measure(&g).0, 1);
    let some = OptSettings { inline_limit: Some(1), ..OptSettings::default() };
    optimize_with_settings(&mut g, None, OptLevel::O2, &some);
    assert_eq!(fixpoint_measure(&g).0, 0);
}

#[test]
fn references_are_replaced_by_site_and_owner() {
    let mut g = tiny_graph();
    let mut before: Vec<(NodeRefSite, u32, NodeId)> = Vec::new();
    g.for_each_node_ref(&mut before);
    assert!(before.len() > 1);
    g.map_node_refs(|site: NodeRefSite, owner: u32, id: NodeId| match site {
        NodeRefSite::SgAnchor => NodeId(id.0 + 100 * (owner + 1)),
        NodeRefSite::NodeMeta => id,
    });
    let mut after: Vec<(NodeRefSite, u32, NodeId)> = Vec::new();
    g.for_each_node_ref(&mut after);
    assert_eq!(after.len(), before.len());
    for (a, b) in before.iter().zip(after.iter()) {
        let expected = match a.0 {
            NodeRefSite::SgAnchor => NodeId(a.2.0 + 100 * (a.1 + 1)),
            NodeRefSite::NodeMeta => a.2,
        };
        assert_eq!(*b, (a.0, a.1, expected));
    }
}

#[test]
fn multiplications_by_powers_become_shifts() {
    let mut g = DataFlowGraph::new();
    let x = g.add_node_raw(NodeKind::Const, &[], ComputeFnId(CF_NOOP));
    let eight = constant(&mut g, ConstValue::U32(8));
    let m = g.add_node_raw(NodeKind::BinOp, &[x, eight], ComputeFnId(CF_MUL_U32));
    g.add_subgraph(subgraph(0, 0, 3, x.0, m.0));
    g.compute_downstreams();
    let mut ctx = OptimizerContext::new();
    pass_strength_reduction(&mut g, &mut ctx);
    assert!(ctx.mutated);
    assert_eq!(g.nodes[2].compute_fn, ComputeFnId(CF_MUL_U32 + 6));
    assert_eq!(int_of(&g, 1), Some(3));
}

#[test]
fn reduced_operations() {
    assert_eq!(mul_to_shl(ComputeFnId(CF_MUL_U32)), Some(ComputeFnId(184)));
    assert_eq!(div_to_shr(ComputeFnId(179)), Some(ComputeFnId(185)));
    assert_eq!(mod_to_bitand(ComputeFnId(180)), Some(ComputeFnId(181)));
    // A signed division rounds the other way.
    assert_eq!(div_to_shr(ComputeFnId(119)), None);
    assert_eq!(div_to_shr(ComputeFnId(215)), None);
    assert_eq!(mul_to_shl(ComputeFnId(CF_ADD_I32)), None);
    assert_eq!(power_of_two(8), Some(3));
    assert_eq!(power_of_two(0), None);
    assert_eq!(power_of_two(12), None);
    assert_eq!(power_of_two(1u128 << 127), Some(127));
    assert_eq!(cv_to_u128(&ConstValue::U8(200)), Some(200));
    assert!(cv_to_u128(&ConstValue::Bool(true)).is_none());
    assert!(cv_set_u128(&ConstValue::U32(1), 7).is_some());
    assert_eq!(const_to_i128(&make_shift_const(5)), Some(5));
}

#[test]
fn folding_of_integers() {
    let add = |a: ConstValue, b: ConstValue| try_fold(ComputeFnId(CF_ADD_I32), &[a, b]);
    assert_eq!(add(ConstValue::I32(2), ConstValue::I32(3)).as_ref().and_then(const_to_i128), Some(5));
    assert_eq!(
        add(ConstValue::I32(i32::MAX), ConstValue::I32(1)).as_ref().and_then(const_to_i128),
        Some(i32::MIN as i128)
    );
    assert!(add(ConstValue::I32(2), ConstValue::I64(3)).is_none());
    // Division by zero has no result.
    assert!(try_fold(ComputeFnId(119), &[ConstValue::I32(1), ConstValue::I32(0)]).is_none());
    assert_eq!(
        try_fold(ComputeFnId(119), &[ConstValue::I32(-7), ConstValue::I32(2)]).as_ref().and_then(const_to_i128),
        Some(-3)
    );
    let a = IntBits::from_const(ConstValue::U8(250)).unwrap();
    let b = IntBits::from_const(ConstValue::U8(10)).unwrap();
    assert_eq!(const_to_i128(&apply_int(IntOp::Add, a, b, 0).unwrap().to_const()), Some(4));
}

#[test]
fn folding_in_place() {
    let mut g = sum_graph();
    let mut ctx = OptimizerContext::new();
    let c = fold_candidates(&g, &ctx);
    assert_eq!(c.len(), 2);
    assert_eq!((c[0].idx, c[1].idx), (2, 3));
    pass_const_fold(&mut g, &mut ctx);
    assert_eq!(ctx.cf_folded_count, 3);
    assert_eq!(int_of(&g, 4), Some(6));
    let mut g = sum_graph();
    make_const(&mut g, 2, ConstValue::I32(9));
    assert_eq!(int_of(&g, 2), Some(9));
}

#[test]
fn live_nodes_follow_uses() {
    let g = tiny_graph();
    let live = compute_live_nodes(&g, &OptimizerContext::new());
    assert!(live.contains(0) && !live.contains(2));
    assert!(!has_side_effect(&g, 2));
}

#[test]
fn edges_of_a_graph() {
    let mut g = sum_graph();
    assert_eq!(g.downstreams[0], vec![NodeId(2), NodeId(3)]);
    assert_eq!(g.downstreams[4], Vec::<NodeId>::new());
    g.compute_downstream_csr();
    assert_eq!(g.downstream_csr_offsets, vec![0, 2, 4, 5, 6, 6]);
    assert_eq!(g.downstream_csr_flat[4], NodeId(4));
    assert_eq!(g.inputs(4), &[NodeId(2), NodeId(3)]);
    let mut refs = Vec::new();
    g.for_each_node_ref(&mut refs);
    assert_eq!(refs, vec![(NodeRefSite::SgAnchor, 0, NodeId(0)), (NodeRefSite::SgAnchor, 0, NodeId(4))]);
    assert!(g.linear_plan(0).is_none());
}

#[test]
fn input_pools() {
    let mut p = InputsPool::new();
    assert!(p.is_empty());
    assert_eq!(p.push(&[NodeId(1), NodeId(2)]), 0);
    assert_eq!(p.push(&[NodeId(3)]), 2);
    assert_eq!(p.get(1, 2), &[NodeId(2), NodeId(3)]);
    assert_eq!(p.len(), 3);
}

#[test]
fn nested_subgraphs() {
    let mut g = DataFlowGraph::new();
    for _ in 0..10 {
        g.add_node_raw(NodeKind::Const, &[], ComputeFnId(CF_NOOP));
    }
    g.add_subgraph(subgraph(0, 0, 10, 0, 0));
    let mut inner = subgraph(1, 2, 8, 2, 2);
    inner.function_id = 0;
    g.add_subgraph(inner);
    let mut innermost = subgraph(2, 4, 6, 4, 4);
    innermost.function_id = 0;
    g.add_subgraph(innermost);
    g.compute_nested_ranges();
    assert_eq!(g.subgraphs[0].nested_ranges, vec![(2, 8)]);
    assert_eq!(g.subgraphs[1].nested_ranges, vec![(4, 6)]);
    assert_eq!(g.find_innermost_sg_for_node(NodeId(5)), Some(SubGraphId(2)));
    assert_eq!(g.find_innermost_sg_for_node(NodeId(9)), Some(SubGraphId(0)));
    assert_eq!(g.find_function_sg_for_node(NodeId(5)), Some(SubGraphId(0)));
    assert_eq!(g.find_immediate_parent_sg(SubGraphId(2)), Some(SubGraphId(1)));
    assert_eq!(g.find_immediate_parent_sg(SubGraphId(0)), None);
    let tree = RegionTree::build(&g);
    assert_eq!(tree.parent_of(SubGraphId(2)), Some(SubGraphId(1)));
    assert!(tree.is_ancestor(SubGraphId(0), SubGraphId(2)));
    assert!(!tree.is_ancestor(SubGraphId(2), SubGraphId(0)));
    assert_eq!(tree.range(SubGraphId(1)), (2, 8));
    let all = tree.innermost_all(10);
    assert_eq!((all[1], all[3], all[5]), (Some(SubGraphId(0)), Some(SubGraphId(1)), Some(SubGraphId(2))));
}

#[test]
fn self_launching_nodes_are_found() {
    let mut g = DataFlowGraph::new();
    let c = constant(&mut g, ConstValue::Bool(true));
    let n = g.add_node_raw(NodeKind::Gate, &[c], ComputeFnId(CF_NOOP));
    g.set_gate_branches(n, GateBranches {
        condition_input: c,
        branches: vec![
            GateBranch { when: true, subgraph: SubGraphId(0), params: Vec::new() },
            GateBranch { when: false, subgraph: SubGraphId(9), params: Vec::new() },
        ],
        capture: false,
    });
    g.add_subgraph(subgraph(0, 1, 2, 1, 1));
    let found = check_gate_in_branch(&g);
    assert_eq!(found.len(), 1);
    assert_eq!((found[0].gate, found[0].when, found[0].branch), (NodeId(1), true, SubGraphId(0)));
}

#[test]
fn copies_of_graphs() {
    let g = sum_graph();
    let h = g.clone();
    assert_eq!(h.nodes.len(), 5);
    assert_eq!(h.inputs(4), g.inputs(4));
    assert_eq!(h.downstreams, g.downstreams);
    assert_eq!(h.subgraphs[0].return_node, NodeId(4));
    assert!(is_wf(&h));
}

fn empty_report() -> AnalysisReport {
    let module = Module { name: "m".to_string(), declarations: Vec::new() };
    let sema = SemaResult {
        expr_types: Vec::new(),
        func_sigs: Vec::new(),
        type_defs: Vec::new(),
        witnesses: Vec::new(),
    };
    assert!(is_analyzable(&module));
    analyze(&module, &sema)
}

#[test]
fn loop_phase_without_loops() {
    let report = empty_report();
    let mut g = sum_graph();
    assert!(can_hoist(&g, &report.loop_analysis.invariants));
    assert!(can_unroll(&g, &report.loop_analysis.unrollable));
    optimize_with_analysis(&mut g, Some(&report), OptLevel::O3);
    let ret = g.subgraphs[0].return_node.0 as usize;
    assert_eq!(int_of(&g, ret), Some(6));
}

#[test]
fn loop_constants_keep_their_type() {
    assert!(matches!(make_const_value(&ConstValue::U8(0), 5), ConstValue::U8(5)));
    assert!(matches!(make_const_value(&ConstValue::I64(0), -5), ConstValue::I64(-5)));
    let _ = CF_RANGE;
}

#[test]
fn a_node_that_goes_may_have_any_input() {
    let mut g = tiny_graph();
    g.inputs_pool.data[0] = NodeId(99);
    assert!(!is_walkable(&g));
    let unfolded = OptSettings { no_fold: true, ..OptSettings::default() };
    let pure = pure_compute_fn_set();
    assert_eq!(run_round(&mut g, &pure, &unfolded), UnitEnd::Changed);
    assert_eq!(g.node_count(), 2);
    assert!(is_walkable(&g));
    assert_eq!(run_round(&mut g, &pure, &unfolded), UnitEnd::Settled);
}

#[test]
fn subgraphs_may_stand_in_any_order() {
    let mut g = DataFlowGraph::new();
    for k in 0..4 {
        constant(&mut g, ConstValue::I32(k));
    }
    g.add_subgraph(subgraph(1, 0, 2, 0, 0));
    g.add_subgraph(subgraph(0, 2, 4, 2, 3));
    g.compute_downstreams();
    let mut dead = IdSet::new();
    dead.insert(1);
    assert!(is_rebuildable(&g, &dead, &IdMap::new(), &IdSet::new()));
    let table = g.rebuild(&dead, &IdMap::new(), &IdSet::new());
    assert_eq!(table, vec![Some(NodeId(0)), None, Some(NodeId(1)), Some(NodeId(2))]);
    assert_eq!(g.subgraphs[0].id, SubGraphId(1));
    assert_eq!(g.subgraphs[0].node_range, (NodeId(0), NodeId(1)));
    assert_eq!(g.subgraphs[1].id, SubGraphId(0));
    assert_eq!(g.subgraphs[1].node_range, (NodeId(1), NodeId(3)));
    // A function whose id is no place has none.
    g.subgraphs[1].id = SubGraphId(7);
    g.subgraphs[1].function_id = 7;
    assert!(!is_rebuildable(&g, &IdSet::new(), &IdMap::new(), &IdSet::new()));
}

#[test]
fn renumbered_subgraphs_have_places() {
    let mut g = DataFlowGraph::new();
    let a = constant(&mut g, ConstValue::I32(1));
    g.add_subgraph(subgraph(0, 0, 0, 0, 0));
    g.add_subgraph(subgraph(1, 0, 1, 0, 0));
    g.set_entry_subgraph(SubGraphId(1));
    g.compute_downstreams();
    assert!(is_rebuildable(&g, &IdSet::new(), &IdMap::new(), &IdSet::new()));
    g.set_call_target(a, SubGraphId(9));
    assert!(!is_rebuildable(&g, &IdSet::new(), &IdMap::new(), &IdSet::new()));
    g.set_call_target(a, SubGraphId(1));
    g.rebuild(&IdSet::new(), &IdMap::new(), &IdSet::new());
    assert_eq!(g.subgraphs.len(), 1);
    assert_eq!(g.entry_subgraph, Some(SubGraphId(0)));
    assert_eq!(g.meta[0].call_target, Some(SubGraphId(0)));
}

#[test]
fn referenced_subgraphs_stay() {
    let mut g = DataFlowGraph::new();
    constant(&mut g, ConstValue::I32(1));
    g.add_subgraph(subgraph(0, 0, 1, 0, 0));
    g.add_subgraph(subgraph(1, 0, 0, 0, 0));
    g.add_subgraph(subgraph(2, 0, 0, 0, 0));
    g.set_entry_subgraph(SubGraphId(0));
    for (method_idx, target) in [(0, 0), (1, 2)] {
        g.vtable_fallback_dispatch.push(VtableEntry {
            method_idx,
            owner_type: "T".to_string(),
            target: SubGraphId(target),
        });
    }
    g.compute_downstreams();
    g.rebuild(&IdSet::new(), &IdMap::new(), &IdSet::new());
    // The second subgraph is empty and nothing refers to it.
    assert_eq!(g.subgraphs.len(), 2);
    let table: Vec<(u16, u32)> = g.vtable_fallback_dispatch.iter().map(|e| (e.method_idx, e.target.0)).collect();
    assert_eq!(table, vec![(0, 0), (1, 1)]);
}

#[test]
fn targets_of_other_nodes_do_not_matter_to_inlining() {
    let mut g = tiny_graph();
    g.set_call_target(NodeId(0), SubGraphId(50));
    assert!(can_inline(&g));
    assert!(collect_inline_candidates(&g).is_empty());
}

#[test]
fn nested_ranges_ascend_and_are_apart() {
    let mut g = DataFlowGraph::new();
    for _ in 0..12 {
        g.add_node_raw(NodeKind::Const, &[], ComputeFnId(CF_NOOP));
    }
    g.add_subgraph(subgraph(0, 0, 12, 0, 0));
    for (id, start, end) in [(1, 8, 11), (2, 1, 4), (3, 2, 3), (4, 5, 7)] {
        let mut inner = subgraph(id, start, end, start, start);
        inner.function_id = 0;
        g.add_subgraph(inner);
    }
    g.compute_nested_ranges();
    assert_eq!(g.subgraphs[0].nested_ranges, vec![(1, 4), (5, 7), (8, 11)]);
    assert_eq!(g.subgraphs[2].nested_ranges, vec![(2, 3)]);
    assert!(g.subgraphs[1].nested_ranges.is_empty());
}

#[test]
fn a_default_graph_is_empty() {
    let g = DataFlowGraph::default();
    assert_eq!((g.node_count(), g.meta.len(), g.subgraphs.len(), g.inputs_pool.len()), (0, 0, 0, 0));
    assert!(g.entry_subgraph.is_none() && g.vtable_fallback_dispatch.is_empty());
    assert!(g.downstreams.is_empty() && g.sg_debug_names.is_empty() && g.ir_errors.is_empty());
}

#[test]
fn users_are_looked_up_only_where_needed() {
    let pure = pure_compute_fn_set();
    let mut g = sum_graph();
    g.downstreams = Vec::new();
    assert_eq!(run_round(&mut g, &pure, &OptSettings::default()), UnitEnd::Changed);
    assert_eq!(g.downstreams.len(), g.node_count());
    let mut g = DataFlowGraph::new();
    let x = g.add_node_raw(NodeKind::Const, &[], ComputeFnId(CF_NOOP));
    let eight = constant(&mut g, ConstValue::U32(8));
    let m = g.add_node_raw(NodeKind::BinOp, &[x, eight], ComputeFnId(CF_MUL_U32));
    g.add_subgraph(subgraph(0, 0, 3, x.0, m.0));
    g.downstreams = Vec::new();
    let mut ctx = OptimizerContext::new();
    assert!(!pass_strength_reduction(&mut g, &mut ctx));
    assert!(!ctx.mutated);
    assert_eq!(run_round(&mut g, &pure, &OptSettings::default()), UnitEnd::Stopped);
    assert_eq!(g.nodes[2].compute_fn, ComputeFnId(CF_MUL_U32));
}
