use kuzo::analysis::tables::FuncId;
use kuzo::ast::tree::ExprId;
use kuzo::fx::{IdMap, IdSet, NameMap, NameSet, Table};
use kuzo::ir::constants::{char_from_u32_or_nul, scalar_meta};
use kuzo::ir::frame::{expr_id_to_key, should_propagate_control_signal, EvalContext, Frame};
use kuzo::ir::graph::DataFlowGraph;
use kuzo::ir::types::{
    ConstValue, ControlSignal, EventSourceKind, FrameId, LoopKind, NodeId, NodeKind, RecordLitKind, SubGraphId,
};
use kuzo::ir::value_table::ValueTable;
use kuzo::value::{TypeFamily, Value, ValueTag};
use std::sync::Arc;

fn is_int(v: &Value, n: i32) -> bool {
    matches!(v, Value::I32(x) if *x == n)
}

#[test]
fn sets_and_maps() {
    let mut s = IdSet::new();
    assert!(s.is_empty());
    assert!(s.insert(7));
    assert!(!s.insert(7));
    assert!(s.contains(7) && !s.contains(8));
    assert!(s.remove(7));
    assert!(!s.remove(7));
    let mut m = IdMap::new();
    assert!(m.is_empty());
    m.insert(1, 10);
    m.insert(1, 11);
    assert_eq!(m.get(1), Some(11));
    assert_eq!(m.get(2), None);
    assert!(!m.is_empty());
    let mut names = NameSet::new();
    assert!(names.insert("a".to_string()));
    assert!(!names.insert("a".to_string()));
    assert!(names.contains("a") && !names.contains("b"));
    names.remove("a");
    assert!(!names.contains("a"));
    let mut ids = NameMap::new();
    ids.insert("f".to_string(), 3);
    ids.insert("f".to_string(), 4);
    assert_eq!(ids.get("f"), Some(4));
    assert_eq!(ids.get("g"), None);
    let mut t: Table<FuncId> = Table::new();
    t.put(5, FuncId(1));
    t.put(2, FuncId(2));
    t.put(5, FuncId(3));
    assert_eq!(t.len(), 2);
    assert_eq!((t.key_at(0), t.key_at(1)), (5, 2));
    assert_eq!(t.get(5), Some(&FuncId(3)));
}

#[test]
fn value_table_slots() {
    let mut t = ValueTable::with_unready(10);
    assert_eq!(t.len(), 10);
    assert!(!t.is_ready(9));
    t.set_value(9, Value::I32(5), 2);
    assert!(t.is_ready(9) && !t.is_ready(8));
    assert!(is_int(&t.get_value(9), 5));
    assert!(t.consume(9));
    assert!(!t.is_consumed(9));
    assert!(!t.consume(9));
    assert!(!t.consume(9));
    assert!(t.is_consumed(9));
    if let Some(v) = t.get_value_mut(9) {
        *v = Value::I32(6);
    }
    assert!(is_int(&t.get_value(9), 6));
    assert!(t.get_value_mut(10).is_none());
    t.reset_slot(9);
    assert!(!t.is_ready(9));
    assert!(matches!(t.get_value(9), Value::Null));
    t.set_value(0, Value::Bool(true), 1);
    t.reset_all();
    assert!(!t.is_ready(0));
    assert_eq!(t.len(), 10);
    assert!(ValueTable::new().is_empty());
}

#[test]
fn no_spare_bit_is_left_set() {
    let mut t = ValueTable::with_unready(3);
    assert_eq!(t.ready, vec![0]);
    // The bits behind the last slot can be reached too.
    t.set_ready(6);
    t.set_value(1, Value::I32(4), 2);
    assert!(t.is_ready(6) && t.is_ready(1));
    t.reset_all();
    assert_eq!(t.ready, vec![0]);
    assert_eq!(t.refcounts, vec![0, 0, 0]);
    assert!(!t.is_ready(6));
}

#[test]
fn grown_slots_are_unready_after_a_shrink() {
    let mut t = ValueTable::with_unready(8);
    for i in 0..8 {
        t.set_value(i, Value::I32(i as i32), 1);
    }
    t.resize(3);
    assert_eq!(t.len(), 3);
    t.resize(8);
    for i in 0..3 {
        assert!(t.is_ready(i));
        assert!(is_int(&t.get_value(i), i as i32));
    }
    for i in 3..8 {
        assert!(!t.is_ready(i));
        assert!(matches!(t.get_value(i), Value::Null));
    }
}

#[test]
fn constants_and_values() {
    let pool = "héllo".as_bytes().to_vec();
    let c = ConstValue::Str { offset: 0, len: 6 };
    assert!(matches!(c.to_value(&pool), Value::Str(s) if s == "héllo"));
    let broken = ConstValue::Str { offset: 2, len: 1 };
    assert!(matches!(broken.to_value(&pool), Value::Str(s) if s.is_empty()));
    assert!(matches!(ConstValue::Char(0x41).to_value(&pool), Value::Char('A')));
    assert!(matches!(ConstValue::Char(0xD800).to_value(&pool), Value::Char('\0')));
    assert!(matches!(ConstValue::I128(-3).to_value(&pool), Value::I128(-3)));
    assert!(matches!(ConstValue::from_value(&Value::Char('A')), Some(ConstValue::Char(0x41))));
    assert!(matches!(ConstValue::from_value(&Value::U8(9)), Some(ConstValue::U8(9))));
    assert!(ConstValue::from_value(&Value::Str("x".to_string())).is_none());
    assert!(ConstValue::from_value(&Value::Object(1)).is_none());
    assert!(matches!(ConstValue::from_value(&Value::Void), Some(ConstValue::Void)));
}

#[test]
fn code_points() {
    assert_eq!(char_from_u32_or_nul(0x10FFFF), '\u{10FFFF}');
    assert_eq!(char_from_u32_or_nul(0x110000), '\0');
    assert_eq!(char_from_u32_or_nul(0xDFFF), '\0');
    assert_eq!(char_from_u32_or_nul(0xE000), '\u{E000}');
}

#[test]
fn scalar_metadata() {
    let i8m = scalar_meta(ValueTag::I8).unwrap();
    assert_eq!((i8m.arith_base, i8m.is_float, i8m.family), (92, false, TypeFamily::Int));
    assert_eq!(scalar_meta(ValueTag::Usize).unwrap().arith_base, 224);
    let f = scalar_meta(ValueTag::F128).unwrap();
    assert_eq!((f.arith_base, f.is_float), (254, true));
    assert_eq!(scalar_meta(ValueTag::Bool).unwrap().arith_base, 0);
    assert!(scalar_meta(ValueTag::Ref).is_none());
}

#[test]
fn kinds_and_their_codes() {
    for c in 0..9u8 {
        assert_eq!(NodeKind::from_code(c).unwrap().code(), c);
    }
    assert_eq!(NodeKind::from_code(7), Some(NodeKind::Gate));
    assert_eq!(NodeKind::from_code(9), None);
    assert_eq!(RecordLitKind::from_code(2), Some(RecordLitKind::Newtype));
    assert_eq!(RecordLitKind::from_code(3), None);
    assert_eq!(EventSourceKind::from_code(3), Some(EventSourceKind::SubgraphComplete));
    assert_eq!(EventSourceKind::from_code(4), None);
    assert_eq!(LoopKind::from_code(5), Some(LoopKind::TailRec));
    assert_eq!(LoopKind::from_code(6), None);
}

#[test]
fn signals_pass_on() {
    let ret = ControlSignal::Return(Value::Null);
    assert!(should_propagate_control_signal(&ret, true, LoopKind::NotLoop));
    assert!(should_propagate_control_signal(&ret, false, LoopKind::While));
    assert!(!should_propagate_control_signal(&ret, false, LoopKind::NotLoop));
    assert!(should_propagate_control_signal(&ControlSignal::Break, true, LoopKind::NotLoop));
    assert!(!should_propagate_control_signal(&ControlSignal::Continue, false, LoopKind::Loop));
    assert!(!should_propagate_control_signal(&ControlSignal::NoSignal, true, LoopKind::Loop));
}

fn frame(n: usize) -> Frame {
    Frame::new(FrameId(1), SubGraphId(0), n, Arc::new(DataFlowGraph::new()))
}

#[test]
fn frames_look_outwards() {
    let mut root = frame(4);
    root.set_value(NodeId(3), Value::I32(30), 1);
    let mut inner = frame(2);
    inner.node_offset = 10;
    inner.set_value(NodeId(1), Value::I32(11), 1);
    inner.pending_inputs[0] = 1;
    inner.root_frame = Some(Arc::new(root));
    assert!(is_int(&inner.get_value_by_global(NodeId(11)), 11));
    assert!(is_int(&inner.get_value_by_global(NodeId(3)), 30));
    // Still waiting for an input, so the value is looked for outside.
    assert!(matches!(inner.get_value_by_global(NodeId(10)), Value::Null));
    assert!(!inner.is_node_ready(NodeId(0)));
    assert!(inner.is_node_ready(NodeId(1)));
    assert!(is_int(&inner.get_value(NodeId(1)), 11));
}

#[test]
fn ready_queue_is_first_in_first_out() {
    let mut f = frame(4);
    f.push_ready(NodeId(2));
    f.push_ready(NodeId(0));
    let graph = DataFlowGraph::new();
    let ctx = EvalContext { node_start: 100, graph: &graph };
    assert_eq!(ctx.queue_len(&f), 2);
    assert_eq!(ctx.collect_batch_candidates(&f, |n: NodeId| n.0 > 100), vec![NodeId(102)]);
    assert_eq!(f.pop_ready(), Some(NodeId(2)));
    assert_eq!(f.pop_ready(), Some(NodeId(0)));
    assert_eq!(f.pop_ready(), None);
}

#[test]
fn expression_keys() {
    assert_eq!(expr_id_to_key(ExprId(4_000_000_000)), 4_000_000_000u64);
}

#[test]
fn queues_and_values_are_apart() {
    let mut f = frame(3);
    f.node_offset = 5;
    f.pending_inputs[1] = 2;
    f.push_ready(NodeId(1));
    f.set_value(NodeId(0), Value::I32(4), 1);
    assert_eq!(f.ready_queue.len(), 1);
    assert_eq!(f.pop_ready(), Some(NodeId(1)));
    assert!(is_int(&f.get_value(NodeId(0)), 4));
    assert_eq!((f.node_offset, f.pending_inputs[1], f.id), (5, 2, FrameId(1)));
}
