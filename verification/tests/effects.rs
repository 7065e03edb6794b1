use kuzo::ir::compute_fns::{
    aliasing_read_cfs, effect_class, is_control_flow_compute_fn, is_launch_kind, is_versioned_read_cf,
    is_versioned_write_cf, pure_compute_fn_set, CF_ARRAY_INDEX, CF_ARRAY_LEN, CF_ARRAY_STORE, CF_BREAK, CF_CAST_SCALAR,
    CF_DEREF_WRITE, CF_ELVIS, CF_EQ_F128, CF_EQ_OBJ, CF_EQ_STR, CF_GE_F128, CF_GE_STR, CF_GT_F128, CF_GT_STR,
    CF_IS_NULL, CF_LE_F128, CF_LE_STR, CF_LT_F128, CF_LT_STR, CF_NE_BOOL, CF_NE_F128, CF_NE_OBJ, CF_NE_STR, CF_NOOP,
    CF_NON_NULL_ASSERT, CF_PATTERN_ADT_FIELD_GET, CF_PATTERN_CTOR_MATCH, CF_PATTERN_STR_EQ, CF_RECORD_FIELD_GET,
    CF_RECORD_FIELD_SET, CF_REF_EQ, CF_REF_NEQ, CF_RETURN, CF_STR_BYTES, COMPUTE_FN_TABLE_LEN,
};
use kuzo::ir::types::{ComputeFnId, EffectClass, NodeKind};

fn expected_pure_set() -> std::collections::BTreeSet<u32> {
    let mut s = std::collections::BTreeSet::new();
    for id in 1..=27u32 {
        s.insert(id);
    }
    for id in 50..=91u32 {
        s.insert(id);
    }
    for id in 92..=259u32 {
        s.insert(id);
    }
    for id in [
        CF_RECORD_FIELD_GET, CF_ARRAY_INDEX, CF_IS_NULL, CF_ARRAY_LEN, CF_REF_EQ, CF_REF_NEQ, CF_ELVIS,
        CF_PATTERN_CTOR_MATCH, CF_PATTERN_ADT_FIELD_GET, CF_PATTERN_STR_EQ, CF_CAST_SCALAR, CF_NON_NULL_ASSERT,
        CF_STR_BYTES, CF_EQ_STR, CF_NE_STR, CF_LT_STR, CF_GT_STR, CF_LE_STR, CF_GE_STR, CF_EQ_OBJ, CF_NE_OBJ,
        CF_NE_BOOL, CF_EQ_F128, CF_NE_F128, CF_LT_F128, CF_GT_F128, CF_LE_F128, CF_GE_F128,
    ] {
        s.insert(id);
    }
    s
}

#[test]
fn pure_set_equivalence_with_legacy() {
    let new = pure_compute_fn_set();
    let old = expected_pure_set();
    let missing: Vec<u32> = old.iter().copied().filter(|id| !new.contains(*id)).collect();
    let added: Vec<u32> = (0..COMPUTE_FN_TABLE_LEN + 64).filter(|id| new.contains(*id) && !old.contains(id)).collect();
    assert!(missing.is_empty() && added.is_empty(), "pure set drift: lost {:?}, gained {:?}", missing, added);
}

#[test]
fn classification_covers_all_cfs() {
    for id in 0..COMPUTE_FN_TABLE_LEN {
        let _ = effect_class(ComputeFnId(id));
    }
}

#[test]
fn aliasing_contract() {
    for cf in aliasing_read_cfs() {
        assert_eq!(effect_class(cf), EffectClass::ReadMutable, "cf {}", cf.0);
    }
    for cf in [CF_RECORD_FIELD_SET, CF_ARRAY_STORE, CF_DEREF_WRITE] {
        assert_eq!(effect_class(ComputeFnId(cf)), EffectClass::WriteMutable, "cf {}", cf);
    }
}

#[test]
fn control_flow_and_launch_kinds() {
    assert!(is_control_flow_compute_fn(ComputeFnId(CF_RETURN)));
    assert!(is_control_flow_compute_fn(ComputeFnId(CF_BREAK)));
    assert!(!is_control_flow_compute_fn(ComputeFnId(CF_NOOP)));
    assert!(is_launch_kind(NodeKind::Gate));
    assert!(is_launch_kind(NodeKind::Call));
    assert!(!is_launch_kind(NodeKind::BinOp));
    assert!(!is_launch_kind(NodeKind::Const));
}

#[test]
fn versioned_accesses_are_reads_or_writes() {
    assert!(is_versioned_read_cf(ComputeFnId(CF_ARRAY_INDEX)));
    assert!(is_versioned_write_cf(ComputeFnId(CF_ARRAY_STORE)));
    assert!(!is_versioned_read_cf(ComputeFnId(CF_ARRAY_STORE)));
    for id in 0..COMPUTE_FN_TABLE_LEN {
        assert!(!(is_versioned_read_cf(ComputeFnId(id)) && is_versioned_write_cf(ComputeFnId(id))));
    }
}
