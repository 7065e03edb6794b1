//! Equality of per-node metadata, as far as it decides what a node computes.
//!
//! Two nodes with the same compute function and the same inputs compute the
//! same value only if their metadata agrees too: a field index, a constructor
//! name, a cast target. Where a node is placed (whether a pass appended it,
//! and for whom) and its constant value are not part of this.

use std::sync::Arc;

use vstd::prelude::*;

use crate::ir::meta::NodeMeta;
use crate::ir::types::{
    DynFfiInfo, GateBranches, NodeId, RecordExtendInfo, RecordLitInfo, SelectInfo, TraitConstructInfo,
};

verus! {

pub open spec fn same_name(a: Option<String>, b: Option<String>) -> bool {
    match (a, b) {
        (None, None) => true,
        (Some(x), Some(y)) => x@ == y@,
        _ => false,
    }
}

pub open spec fn same_names(a: Seq<String>, b: Seq<String>) -> bool {
    a.len() == b.len() && forall|k: int| 0 <= k < a.len() ==> (#[trigger] a[k])@ == b[k]@
}

pub open spec fn same_gate(a: Option<Arc<GateBranches>>, b: Option<Arc<GateBranches>>) -> bool {
    match (a, b) {
        (None, None) => true,
        (Some(x), Some(y)) => {
            &&& x.condition_input == y.condition_input
            &&& x.capture == y.capture
            &&& x.branches@.len() == y.branches@.len()
            &&& forall|k: int|
                0 <= k < x.branches@.len() ==> {
                    &&& (#[trigger] x.branches@[k]).when == y.branches@[k].when
                    &&& x.branches@[k].subgraph == y.branches@[k].subgraph
                    &&& x.branches@[k].params@ == y.branches@[k].params@
                }
        },
        _ => false,
    }
}

pub open spec fn same_select(a: Option<Arc<SelectInfo>>, b: Option<Arc<SelectInfo>>) -> bool {
    match (a, b) {
        (None, None) => true,
        (Some(x), Some(y)) => x.branches@ == y.branches@,
        _ => false,
    }
}

pub open spec fn same_record(a: Option<Arc<RecordLitInfo>>, b: Option<Arc<RecordLitInfo>>) -> bool {
    match (a, b) {
        (None, None) => true,
        (Some(x), Some(y)) => {
            &&& x.owner_type@ == y.owner_type@
            &&& x.constructor@ == y.constructor@
            &&& x.kind == y.kind
            &&& x.field_names@.len() == y.field_names@.len()
            &&& forall|k: int|
                0 <= k < x.field_names@.len() ==> same_name(
                    #[trigger] x.field_names@[k],
                    y.field_names@[k],
                )
        },
        _ => false,
    }
}

pub open spec fn same_ffi(a: Option<Arc<DynFfiInfo>>, b: Option<Arc<DynFfiInfo>>) -> bool {
    match (a, b) {
        (None, None) => true,
        (Some(x), Some(y)) => {
            &&& x.symbol@ == y.symbol@
            &&& x.params@ == y.params@
            &&& x.result == y.result
            &&& x.arg_count == y.arg_count
        },
        _ => false,
    }
}

pub open spec fn same_trait(
    a: Option<Arc<TraitConstructInfo>>,
    b: Option<Arc<TraitConstructInfo>>,
) -> bool {
    match (a, b) {
        (None, None) => true,
        (Some(x), Some(y)) => {
            &&& x.trait_name@ == y.trait_name@
            &&& same_names(x.method_names@, y.method_names@)
            &&& x.methods@ == y.methods@
        },
        _ => false,
    }
}

pub open spec fn same_extension(
    a: Option<Arc<RecordExtendInfo>>,
    b: Option<Arc<RecordExtendInfo>>,
) -> bool {
    match (a, b) {
        (None, None) => true,
        (Some(x), Some(y)) => same_names(x.update_names@, y.update_names@),
        _ => false,
    }
}

/// Whether the metadata agrees in everything that decides the node's value.
pub open spec fn same_metadata(a: NodeMeta, b: NodeMeta) -> bool {
    &&& a.call_target == b.call_target
    &&& same_gate(a.gate_branches, b.gate_branches)
    &&& a.field_access_info == b.field_access_info
    &&& same_record(a.record_lit_info, b.record_lit_info)
    &&& same_name(a.ffi_call_name, b.ffi_call_name)
    &&& same_ffi(a.dyn_ffi_info, b.dyn_ffi_info)
    &&& same_name(a.field_set_name, b.field_set_name)
    &&& a.vtable_call_method == b.vtable_call_method
    &&& a.await_event_source == b.await_event_source
    &&& a.closure_info == b.closure_info
    &&& a.partial_info == b.partial_info
    &&& a.closure_call_arg_count == b.closure_call_arg_count
    &&& same_select(a.select_info, b.select_info)
    &&& a.writeback_target == b.writeback_target
    &&& a.batch_info == b.batch_info
    &&& same_trait(a.trait_construct_info, b.trait_construct_info)
    &&& a.lazy_construct_info == b.lazy_construct_info
    &&& same_extension(a.record_extend_info, b.record_extend_info)
    &&& a.global_load_slot == b.global_load_slot
    &&& a.global_store_slot == b.global_store_slot
    &&& same_name(a.pattern_ctor_name, b.pattern_ctor_name)
    &&& same_name(a.pattern_type_name, b.pattern_type_name)
    &&& a.pattern_field_index == b.pattern_field_index
    &&& same_name(a.cast_target_type, b.cast_target_type)
    &&& a.memo_info == b.memo_info
    &&& a.tail_call == b.tail_call
    &&& a.safe_op == b.safe_op
    &&& a.slice_inclusive == b.slice_inclusive
}

fn names_agree(a: &Option<String>, b: &Option<String>) -> (r: bool)
    ensures
        r == same_name(*a, *b),
{
    match (a, b) {
        (None, None) => true,
        (Some(x), Some(y)) => *x == *y,
        _ => false,
    }
}

fn name_lists_agree(a: &Vec<String>, b: &Vec<String>) -> (r: bool)
    ensures
        r == same_names(a@, b@),
{
    if a.len() != b.len() {
        return false;
    }
    let mut i: usize = 0;
    while i < a.len()
        invariant
            i <= a@.len() == b@.len(),
            forall|k: int| 0 <= k < i ==> (#[trigger] a@[k])@ == b@[k]@,
        decreases a@.len() - i,
    {
        if !(a[i] == b[i]) {
            assert(a@[i as int]@ != b@[i as int]@);
            return false;
        }
        i = i + 1;
    }
    true
}

fn ids_agree(a: &Vec<NodeId>, b: &Vec<NodeId>) -> (r: bool)
    ensures
        r == (a@ == b@),
{
    if a.len() != b.len() {
        return false;
    }
    let mut i: usize = 0;
    while i < a.len()
        invariant
            i <= a@.len() == b@.len(),
            forall|k: int| 0 <= k < i ==> #[trigger] a@[k] == b@[k],
        decreases a@.len() - i,
    {
        if a[i] != b[i] {
            return false;
        }
        i = i + 1;
    }
    assert(a@ =~= b@);
    true
}

fn gates_agree(a: &Option<Arc<GateBranches>>, b: &Option<Arc<GateBranches>>) -> (r: bool)
    ensures
        r == same_gate(*a, *b),
{
    match (a, b) {
        (None, None) => true,
        (Some(x), Some(y)) => {
            if x.condition_input != y.condition_input || x.capture != y.capture || x.branches.len()
                != y.branches.len() {
                return false;
            }
            let mut i: usize = 0;
            while i < x.branches.len()
                invariant
                    *a == Some(*x),
                    *b == Some(*y),
                    x.condition_input == y.condition_input,
                    x.capture == y.capture,
                    i <= x.branches@.len() == y.branches@.len(),
                    forall|k: int|
                        0 <= k < i ==> {
                            &&& (#[trigger] x.branches@[k]).when == y.branches@[k].when
                            &&& x.branches@[k].subgraph == y.branches@[k].subgraph
                            &&& x.branches@[k].params@ == y.branches@[k].params@
                        },
                decreases x.branches@.len() - i,
            {
                let p = &x.branches[i];
                let q = &y.branches[i];
                if p.when != q.when || p.subgraph != q.subgraph || !ids_agree(
                    &p.params,
                    &q.params,
                ) {
                    return false;
                }
                i = i + 1;
            }
            true
        },
        _ => false,
    }
}

fn selects_agree(a: &Option<Arc<SelectInfo>>, b: &Option<Arc<SelectInfo>>) -> (r: bool)
    ensures
        r == same_select(*a, *b),
{
    match (a, b) {
        (None, None) => true,
        (Some(x), Some(y)) => {
            if x.branches.len() != y.branches.len() {
                return false;
            }
            let mut i: usize = 0;
            while i < x.branches.len()
                invariant
                    *a == Some(*x),
                    *b == Some(*y),
                    i <= x.branches@.len() == y.branches@.len(),
                    forall|k: int| 0 <= k < i ==> #[trigger] x.branches@[k] == y.branches@[k],
                decreases x.branches@.len() - i,
            {
                if x.branches[i] != y.branches[i] {
                    return false;
                }
                i = i + 1;
            }
            assert(x.branches@ =~= y.branches@);
            true
        },
        _ => false,
    }
}

fn records_agree(a: &Option<Arc<RecordLitInfo>>, b: &Option<Arc<RecordLitInfo>>) -> (r: bool)
    ensures
        r == same_record(*a, *b),
{
    match (a, b) {
        (None, None) => true,
        (Some(x), Some(y)) => {
            if x.owner_type != y.owner_type || x.constructor != y.constructor || x.kind != y.kind
                || x.field_names.len() != y.field_names.len() {
                return false;
            }
            let mut i: usize = 0;
            while i < x.field_names.len()
                invariant
                    *a == Some(*x),
                    *b == Some(*y),
                    x.owner_type@ == y.owner_type@,
                    x.constructor@ == y.constructor@,
                    x.kind == y.kind,
                    i <= x.field_names@.len() == y.field_names@.len(),
                    forall|k: int|
                        0 <= k < i ==> same_name(#[trigger] x.field_names@[k], y.field_names@[k]),
                decreases x.field_names@.len() - i,
            {
                if !names_agree(&x.field_names[i], &y.field_names[i]) {
                    assert(!same_name(x.field_names@[i as int], y.field_names@[i as int]));
                    return false;
                }
                i = i + 1;
            }
            true
        },
        _ => false,
    }
}

fn ffis_agree(a: &Option<Arc<DynFfiInfo>>, b: &Option<Arc<DynFfiInfo>>) -> (r: bool)
    ensures
        r == same_ffi(*a, *b),
{
    match (a, b) {
        (None, None) => true,
        (Some(x), Some(y)) => {
            if x.symbol != y.symbol || x.result != y.result || x.arg_count != y.arg_count
                || x.params.len() != y.params.len() {
                return false;
            }
            let mut i: usize = 0;
            while i < x.params.len()
                invariant
                    *a == Some(*x),
                    *b == Some(*y),
                    x.symbol@ == y.symbol@,
                    x.result == y.result,
                    x.arg_count == y.arg_count,
                    i <= x.params@.len() == y.params@.len(),
                    forall|k: int| 0 <= k < i ==> #[trigger] x.params@[k] == y.params@[k],
                decreases x.params@.len() - i,
            {
                if x.params[i] != y.params[i] {
                    return false;
                }
                i = i + 1;
            }
            assert(x.params@ =~= y.params@);
            true
        },
        _ => false,
    }
}

fn traits_agree(a: &Option<Arc<TraitConstructInfo>>, b: &Option<Arc<TraitConstructInfo>>) -> (r: bool)
    ensures
        r == same_trait(*a, *b),
{
    match (a, b) {
        (None, None) => true,
        (Some(x), Some(y)) => {
            if x.trait_name != y.trait_name || !name_lists_agree(
                &x.method_names,
                &y.method_names,
            ) || x.methods.len() != y.methods.len() {
                return false;
            }
            let mut i: usize = 0;
            while i < x.methods.len()
                invariant
                    *a == Some(*x),
                    *b == Some(*y),
                    x.trait_name@ == y.trait_name@,
                    same_names(x.method_names@, y.method_names@),
                    i <= x.methods@.len() == y.methods@.len(),
                    forall|k: int| 0 <= k < i ==> #[trigger] x.methods@[k] == y.methods@[k],
                decreases x.methods@.len() - i,
            {
                if x.methods[i] != y.methods[i] {
                    return false;
                }
                i = i + 1;
            }
            assert(x.methods@ =~= y.methods@);
            true
        },
        _ => false,
    }
}

fn extensions_agree(a: &Option<Arc<RecordExtendInfo>>, b: &Option<Arc<RecordExtendInfo>>) -> (r: bool)
    ensures
        r == same_extension(*a, *b),
{
    match (a, b) {
        (None, None) => true,
        (Some(x), Some(y)) => name_lists_agree(&x.update_names, &y.update_names),
        _ => false,
    }
}

/// Whether the metadata of two nodes agrees in everything that decides their
/// values.
pub fn metadata_agrees(a: &NodeMeta, b: &NodeMeta) -> (r: bool)
    ensures
        r == same_metadata(*a, *b),
{
    a.call_target == b.call_target && gates_agree(&a.gate_branches, &b.gate_branches)
        && a.field_access_info == b.field_access_info && records_agree(
        &a.record_lit_info,
        &b.record_lit_info,
    ) && names_agree(&a.ffi_call_name, &b.ffi_call_name) && ffis_agree(
        &a.dyn_ffi_info,
        &b.dyn_ffi_info,
    ) && names_agree(&a.field_set_name, &b.field_set_name) && a.vtable_call_method
        == b.vtable_call_method && a.await_event_source == b.await_event_source && a.closure_info
        == b.closure_info && a.partial_info == b.partial_info && a.closure_call_arg_count
        == b.closure_call_arg_count && selects_agree(&a.select_info, &b.select_info)
        && a.writeback_target == b.writeback_target && a.batch_info == b.batch_info
        && traits_agree(&a.trait_construct_info, &b.trait_construct_info) && a.lazy_construct_info
        == b.lazy_construct_info && extensions_agree(
        &a.record_extend_info,
        &b.record_extend_info,
    ) && a.global_load_slot == b.global_load_slot && a.global_store_slot == b.global_store_slot
        && names_agree(&a.pattern_ctor_name, &b.pattern_ctor_name) && names_agree(
        &a.pattern_type_name,
        &b.pattern_type_name,
    ) && a.pattern_field_index == b.pattern_field_index && names_agree(
        &a.cast_target_type,
        &b.cast_target_type,
    ) && a.memo_info == b.memo_info && a.tail_call == b.tail_call && a.safe_op == b.safe_op
        && a.slice_inclusive == b.slice_inclusive
}

/// Metadata that counts as the same agrees in everything that a computation
/// depends on.
pub proof fn law_same_metadata_agrees(a: NodeMeta, b: NodeMeta)
    requires
        same_metadata(a, b),
    ensures
        a.call_target == b.call_target,
        a.field_access_info == b.field_access_info,
        a.vtable_call_method == b.vtable_call_method,
        a.await_event_source == b.await_event_source,
        a.closure_info == b.closure_info,
        a.partial_info == b.partial_info,
        a.closure_call_arg_count == b.closure_call_arg_count,
        a.writeback_target == b.writeback_target,
        a.batch_info == b.batch_info,
        a.lazy_construct_info == b.lazy_construct_info,
        a.global_load_slot == b.global_load_slot,
        a.global_store_slot == b.global_store_slot,
        a.pattern_field_index == b.pattern_field_index,
        a.memo_info == b.memo_info,
        a.tail_call == b.tail_call,
        a.safe_op == b.safe_op,
        a.slice_inclusive == b.slice_inclusive,
        a.ffi_call_name is Some <==> b.ffi_call_name is Some,
        a.ffi_call_name is Some ==> a.ffi_call_name->0@ == b.ffi_call_name->0@,
        a.field_set_name is Some <==> b.field_set_name is Some,
        a.field_set_name is Some ==> a.field_set_name->0@ == b.field_set_name->0@,
        a.pattern_ctor_name is Some <==> b.pattern_ctor_name is Some,
        a.pattern_ctor_name is Some ==> a.pattern_ctor_name->0@ == b.pattern_ctor_name->0@,
        a.pattern_type_name is Some <==> b.pattern_type_name is Some,
        a.pattern_type_name is Some ==> a.pattern_type_name->0@ == b.pattern_type_name->0@,
        a.cast_target_type is Some <==> b.cast_target_type is Some,
        a.cast_target_type is Some ==> a.cast_target_type->0@ == b.cast_target_type->0@,
        a.gate_branches is Some <==> b.gate_branches is Some,
        a.gate_branches is Some ==> a.gate_branches->0.condition_input == b.gate_branches->0.condition_input
            && a.gate_branches->0.branches@.len() == b.gate_branches->0.branches@.len(),
{
}

/// Metadata counts as the same as itself, and in both directions.
pub proof fn law_same_metadata_is_symmetric(a: NodeMeta, b: NodeMeta)
    ensures
        same_metadata(a, a),
        same_metadata(a, b) ==> same_metadata(b, a),
{
}

} // verus!
