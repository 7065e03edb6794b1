use kuzo::analysis::report::{analyze, AnalysisReport};
use kuzo::ast::sema::SemaResult;
use kuzo::ast::tree::Module;
use kuzo::ir::compute_fns::{CF_ADD_I32, CF_CALL_LAUNCH, CF_NOOP, CF_RANGE};
use kuzo::ir::graph::DataFlowGraph;
use kuzo::ir::types::{ComputeFnId, ConstValue, LoopKind, NodeId, NodeKind, SubGraph, SubGraphId};
use kuzo::pass::checks::{can_analyze_loops, can_hoist, can_unroll};
use kuzo::pass::context::OptimizerContext;
use kuzo::pass::driver::{run_loop_phase, OptSettings, UnitEnd};
use kuzo::pass::licm::pass_licm;
use kuzo::pass::loops::{analyze_loops, BodyInvariants, UnrollInfo};
use kuzo::pass::unroll::pass_loop_unroll;

fn subgraph(id: u32, start: u32, end: u32) -> SubGraph {
    SubGraph {
        id: SubGraphId(id),
        node_range: (NodeId(start), NodeId(end)),
        param_count: 0,
        entry_node: NodeId(start),
        return_node: NodeId(start),
        has_suspend: false,
        event_source_decls: Vec::new(),
        defer_table: Vec::new(),
        loop_kind: LoopKind::NotLoop,
        loop_parent_sg: None,
        cond_node: None,
        function_id: 0,
        iter_next_node: None,
        upvalue_count: 0,
        upvalue_outer_nodes: Vec::new(),
        nested_ranges: Vec::new(),
        reset_plan: None,
    }
}

/// A function with the loop `for v in 0..end { (a + a) + v }`.
fn loop_graph(end: i32) -> DataFlowGraph {
    let mut g = DataFlowGraph::new();
    for c in [0, end, 7] {
        let n = g.add_node_raw(NodeKind::Const, &[], ComputeFnId(CF_NOOP));
        g.set_const_value(n, ConstValue::I32(c));
    }
    let range = g.add_node_raw(NodeKind::BinOp, &[NodeId(0), NodeId(1)], ComputeFnId(CF_RANGE));
    let next = g.add_node_raw(NodeKind::Call, &[range], ComputeFnId(CF_CALL_LAUNCH));
    let _iterator = g.add_node_raw(NodeKind::Const, &[], ComputeFnId(CF_NOOP));
    let value = g.add_node_raw(NodeKind::Const, &[], ComputeFnId(CF_NOOP));
    let same = g.add_node_raw(NodeKind::BinOp, &[NodeId(2), NodeId(2)], ComputeFnId(CF_ADD_I32));
    g.add_node_raw(NodeKind::BinOp, &[same, value], ComputeFnId(CF_ADD_I32));
    g.add_subgraph(subgraph(0, 0, 9));
    let mut repeat = subgraph(1, 3, 9);
    repeat.loop_kind = LoopKind::For;
    repeat.iter_next_node = Some(next);
    g.add_subgraph(repeat);
    let mut body = subgraph(2, 5, 9);
    body.loop_kind = LoopKind::LoopBody;
    body.loop_parent_sg = Some(SubGraphId(1));
    g.add_subgraph(body);
    g.set_entry_subgraph(SubGraphId(0));
    g.compute_downstreams();
    g
}

fn report_on(g: &DataFlowGraph) -> AnalysisReport {
    let module = Module { name: "m".to_string(), declarations: Vec::new() };
    let sema = SemaResult {
        expr_types: Vec::new(),
        func_sigs: Vec::new(),
        type_defs: Vec::new(),
        witnesses: Vec::new(),
    };
    let mut report = analyze(&module, &sema);
    assert!(can_analyze_loops(g));
    report.loop_analysis = analyze_loops(g);
    report
}

#[test]
fn loops_are_analyzed() {
    let r = report_on(&loop_graph(3)).loop_analysis;
    assert_eq!(r.invariants.len(), 1);
    assert_eq!((r.invariants[0].body_sg, r.invariants[0].nodes.clone()), (SubGraphId(2), vec![NodeId(7)]));
    assert_eq!(r.unrollable.len(), 1);
    let (sg, info) = &r.unrollable[0];
    assert_eq!(*sg, SubGraphId(1));
    assert_eq!((info.trip_count, info.start_value, info.step), (3, 0, 1));
    assert_eq!((info.body_sg, info.loop_var_node), (SubGraphId(2), NodeId(6)));
}

#[test]
fn long_and_empty_loops_are_not_unrolled() {
    assert_eq!(report_on(&loop_graph(8)).loop_analysis.unrollable.len(), 1);
    assert_eq!(report_on(&loop_graph(9)).loop_analysis.unrollable.len(), 0);
    assert_eq!(report_on(&loop_graph(0)).loop_analysis.unrollable.len(), 0);
    assert_eq!(report_on(&loop_graph(i32::MIN)).loop_analysis.unrollable.len(), 0);
}

#[test]
fn invariants_leave_the_loop() {
    let mut g = loop_graph(3);
    let r = report_on(&g);
    assert!(can_hoist(&g, &r.loop_analysis.invariants));
    let mut ctx = OptimizerContext::new();
    pass_licm(&mut g, &mut ctx, Some(&r));
    assert_eq!(g.nodes.len(), 10);
    assert_eq!(ctx.redirect.get(7), Some(9));
    assert_eq!(g.inputs(9), &[NodeId(2), NodeId(2)]);
    assert!(g.meta[9].hoisted);
    assert!(ctx.mutated);
    let mut untouched = loop_graph(3);
    let mut ctx = OptimizerContext::new();
    pass_licm(&mut untouched, &mut ctx, None);
    assert_eq!(untouched.nodes.len(), 9);
    assert!(!ctx.has_changes());
}

#[test]
fn short_loops_are_unrolled() {
    let mut g = loop_graph(3);
    let r = report_on(&g);
    assert!(can_unroll(&g, &r.loop_analysis.unrollable));
    let mut ctx = OptimizerContext::new();
    pass_loop_unroll(&mut g, &mut ctx, Some(&r));
    // Three rounds of a constant and two nodes of the body.
    assert_eq!(g.nodes.len(), 18);
    assert!(matches!(g.meta[9].const_value, Some(ConstValue::I32(0))));
    assert!(matches!(g.meta[12].const_value, Some(ConstValue::I32(1))));
    assert!(matches!(g.meta[15].const_value, Some(ConstValue::I32(2))));
    assert_eq!(g.inputs(11), &[NodeId(10), NodeId(9)]);
    assert!(ctx.mutated);
}

#[test]
fn loop_phase_changes_or_restores() {
    let mut g = loop_graph(3);
    let r = report_on(&g);
    let hoist_only = OptSettings { no_unroll: true, ..OptSettings::default() };
    let end = run_loop_phase(&mut g, &r, &hoist_only);
    assert_eq!(end, UnitEnd::Changed);
    assert_eq!(g.nodes.len(), 9);
    let mut broken = loop_graph(3);
    let mut r = report_on(&broken);
    r.loop_analysis.invariants[0].nodes.push(NodeId(99));
    assert_eq!(run_loop_phase(&mut broken, &r, &hoist_only), UnitEnd::Stopped);
    assert_eq!(broken.nodes.len(), 9);
}

#[test]
fn loops_without_a_place_for_clones_are_passed_over() {
    let mut g = DataFlowGraph::new();
    for _ in 0..4 {
        g.add_node_raw(NodeKind::Const, &[], ComputeFnId(CF_NOOP));
    }
    g.add_subgraph(subgraph(0, 0, 2));
    let info = UnrollInfo {
        trip_count: 2,
        loop_var_node: NodeId(0),
        start_value: 0,
        step: 1,
        body_sg: SubGraphId(9),
        start_const: ConstValue::I32(0),
    };
    // Nothing encloses the loop, so its body is not looked at.
    let loops = vec![(SubGraphId(0), info)];
    assert!(can_unroll(&g, &loops));
    assert!(!can_unroll(&g, &vec![(SubGraphId(3), info)]));
    let lists = vec![BodyInvariants { body_sg: SubGraphId(0), nodes: vec![NodeId(77)] }];
    assert!(can_hoist(&g, &lists));
    // Enclosed, it is.
    g.add_subgraph(subgraph(1, 0, 4));
    assert!(!can_unroll(&g, &loops));
    g.subgraphs[0].loop_parent_sg = Some(SubGraphId(1));
    assert!(!can_hoist(&g, &lists));
}
