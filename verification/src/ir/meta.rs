//! Per-node metadata.
//!
//! Every node has one record of metadata, held in parallel to the nodes; a
//! field that does not apply to the node is absent.

use std::sync::Arc;

use vstd::prelude::*;

use crate::ir::types::{
    BatchInfo, ClosureInfo, ConstValue, DynFfiInfo, GateBranches, LazyConstructInfo, MemoInfo,
    NodeId, PartialInfo, RecordExtendInfo, RecordLitInfo, SelectInfo, SubGraphId,
    TraitConstructInfo,
};

verus! {

/// Owner of a node that no pass has appended.
pub const NO_OWNER: u32 = 0xffff_ffff;

/// Metadata of one node.
#[derive(Debug)]
pub struct NodeMeta {
    /// Raw value of a constant node.
    pub const_value: Option<ConstValue>,
    /// Target subgraph of a Call node.
    pub call_target: Option<SubGraphId>,
    /// Branches of a Gate node.
    pub gate_branches: Option<Arc<GateBranches>>,
    /// Field index of a field access.
    pub field_access_info: Option<u16>,
    /// Record construction info.
    pub record_lit_info: Option<Arc<RecordLitInfo>>,
    /// Name of the foreign function that the node calls.
    pub ffi_call_name: Option<String>,
    /// Inline foreign-call info.
    pub dyn_ffi_info: Option<Arc<DynFfiInfo>>,
    /// Field name of a field assignment.
    pub field_set_name: Option<String>,
    /// Method index of a dynamically dispatched call.
    pub vtable_call_method: Option<u16>,
    /// Event source declaration node of an Await node.
    pub await_event_source: Option<NodeId>,
    /// Closure construction info.
    pub closure_info: Option<ClosureInfo>,
    /// Partial application info.
    pub partial_info: Option<PartialInfo>,
    /// Argument count of a closure call.
    pub closure_call_arg_count: Option<u8>,
    /// Branches of a select gate.
    pub select_info: Option<Arc<SelectInfo>>,
    /// Node that a writeback overwrites.
    pub writeback_target: Option<NodeId>,
    /// Batching marker.
    pub batch_info: Option<BatchInfo>,
    /// Inline-trait construction info.
    pub trait_construct_info: Option<Arc<TraitConstructInfo>>,
    /// Lazy construction info.
    pub lazy_construct_info: Option<LazyConstructInfo>,
    /// Record extension info.
    pub record_extend_info: Option<Arc<RecordExtendInfo>>,
    /// Slot that a global load reads.
    pub global_load_slot: Option<u32>,
    /// Slot that a global store writes.
    pub global_store_slot: Option<u32>,
    /// Constructor name of a constructor test.
    pub pattern_ctor_name: Option<String>,
    /// Owning type of that constructor.
    pub pattern_type_name: Option<String>,
    /// Positional field index of a pattern extraction.
    pub pattern_field_index: Option<u16>,
    /// Target type name of a cast.
    pub cast_target_type: Option<String>,
    /// Cache metadata of a memo node.
    pub memo_info: Option<MemoInfo>,
    /// Tail call: the frame is reused.
    pub tail_call: bool,
    /// Short-circuits to null when the first input is null.
    pub safe_op: bool,
    /// Appended by a pass (hoisting, unrolling, inlining).
    pub hoisted: bool,
    /// Inclusive upper bound of a slice.
    pub slice_inclusive: bool,
    /// Owning subgraph of a hoisted node; `NO_OWNER` for the others.
    pub hoisted_owner: SubGraphId,
}

impl NodeMeta {
    /// The metadata of a node that has none.
    pub open spec fn blank() -> NodeMeta {
        NodeMeta {
            const_value: None,
            call_target: None,
            gate_branches: None,
            field_access_info: None,
            record_lit_info: None,
            ffi_call_name: None,
            dyn_ffi_info: None,
            field_set_name: None,
            vtable_call_method: None,
            await_event_source: None,
            closure_info: None,
            partial_info: None,
            closure_call_arg_count: None,
            select_info: None,
            writeback_target: None,
            batch_info: None,
            trait_construct_info: None,
            lazy_construct_info: None,
            record_extend_info: None,
            global_load_slot: None,
            global_store_slot: None,
            pattern_ctor_name: None,
            pattern_type_name: None,
            pattern_field_index: None,
            cast_target_type: None,
            memo_info: None,
            tail_call: false,
            safe_op: false,
            hoisted: false,
            slice_inclusive: false,
            hoisted_owner: SubGraphId(NO_OWNER),
        }
    }

    pub fn new() -> (r: Self)
        ensures
            r == NodeMeta::blank(),
    {
        NodeMeta {
            const_value: None,
            call_target: None,
            gate_branches: None,
            field_access_info: None,
            record_lit_info: None,
            ffi_call_name: None,
            dyn_ffi_info: None,
            field_set_name: None,
            vtable_call_method: None,
            await_event_source: None,
            closure_info: None,
            partial_info: None,
            closure_call_arg_count: None,
            select_info: None,
            writeback_target: None,
            batch_info: None,
            trait_construct_info: None,
            lazy_construct_info: None,
            record_extend_info: None,
            global_load_slot: None,
            global_store_slot: None,
            pattern_ctor_name: None,
            pattern_type_name: None,
            pattern_field_index: None,
            cast_target_type: None,
            memo_info: None,
            tail_call: false,
            safe_op: false,
            hoisted: false,
            slice_inclusive: false,
            hoisted_owner: SubGraphId(NO_OWNER),
        }
    }
}

impl Clone for NodeMeta {
    fn clone(&self) -> (r: Self)
        ensures
            r == *self,
    {
        NodeMeta {
            const_value: self.const_value,
            call_target: self.call_target,
            gate_branches: match &self.gate_branches {
                None => None,
                Some(v) => Some(v.clone()),
            },
            field_access_info: self.field_access_info,
            record_lit_info: match &self.record_lit_info {
                None => None,
                Some(v) => Some(v.clone()),
            },
            ffi_call_name: match &self.ffi_call_name {
                None => None,
                Some(v) => Some(v.clone()),
            },
            dyn_ffi_info: match &self.dyn_ffi_info {
                None => None,
                Some(v) => Some(v.clone()),
            },
            field_set_name: match &self.field_set_name {
                None => None,
                Some(v) => Some(v.clone()),
            },
            vtable_call_method: self.vtable_call_method,
            await_event_source: self.await_event_source,
            closure_info: self.closure_info,
            partial_info: self.partial_info,
            closure_call_arg_count: self.closure_call_arg_count,
            select_info: match &self.select_info {
                None => None,
                Some(v) => Some(v.clone()),
            },
            writeback_target: self.writeback_target,
            batch_info: self.batch_info,
            trait_construct_info: match &self.trait_construct_info {
                None => None,
                Some(v) => Some(v.clone()),
            },
            lazy_construct_info: self.lazy_construct_info,
            record_extend_info: match &self.record_extend_info {
                None => None,
                Some(v) => Some(v.clone()),
            },
            global_load_slot: self.global_load_slot,
            global_store_slot: self.global_store_slot,
            pattern_ctor_name: match &self.pattern_ctor_name {
                None => None,
                Some(v) => Some(v.clone()),
            },
            pattern_type_name: match &self.pattern_type_name {
                None => None,
                Some(v) => Some(v.clone()),
            },
            pattern_field_index: self.pattern_field_index,
            cast_target_type: match &self.cast_target_type {
                None => None,
                Some(v) => Some(v.clone()),
            },
            memo_info: self.memo_info,
            tail_call: self.tail_call,
            safe_op: self.safe_op,
            hoisted: self.hoisted,
            slice_inclusive: self.slice_inclusive,
            hoisted_owner: self.hoisted_owner,
        }
    }
}

} // verus!
