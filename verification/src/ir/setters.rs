//! Setters of per-node metadata: each replaces one field of one node and
//! leaves everything else as it was.

use std::sync::Arc;

use vstd::prelude::*;

use crate::ir::graph::DataFlowGraph;
use crate::ir::meta::NodeMeta;
use crate::ir::types::{
    BatchInfo, ClosureInfo, ConstValue, DynFfiInfo, GateBranches, LazyConstructInfo, MemoInfo,
    NodeId, PartialInfo, RecordExtendInfo, RecordLitInfo, SelectInfo, SubGraphId,
    TraitConstructInfo,
};

verus! {

impl DataFlowGraph {
    /// This graph with the metadata of node `i` replaced.
    pub open spec fn meta_replaced(&self, after: &DataFlowGraph, i: int, m: NodeMeta) -> bool {
        after.meta@ == self.meta@.update(i, m) && after.same_but_meta(self)
    }

    pub fn set_const_value(&mut self, node: NodeId, v: ConstValue)
        requires
            node.0 < old(self).meta.len(),
        ensures
            old(self).meta_replaced(
                final(self),
                node.0 as int,
                (NodeMeta { const_value: Some(v), ..old(self).meta@[node.0 as int] }),
            ),
    {
        let mut m = self.meta[node.0 as usize].clone();
        m.const_value = Some(v);
        self.meta.set(node.0 as usize, m);
    }

    pub fn set_call_target(&mut self, node: NodeId, v: SubGraphId)
        requires
            node.0 < old(self).meta.len(),
        ensures
            old(self).meta_replaced(
                final(self),
                node.0 as int,
                (NodeMeta { call_target: Some(v), ..old(self).meta@[node.0 as int] }),
            ),
    {
        let mut m = self.meta[node.0 as usize].clone();
        m.call_target = Some(v);
        self.meta.set(node.0 as usize, m);
    }

    pub fn set_gate_branches(&mut self, node: NodeId, v: GateBranches)
        requires
            node.0 < old(self).meta.len(),
        ensures
            old(self).meta_replaced(
                final(self),
                node.0 as int,
                (NodeMeta { gate_branches: Some(Arc::new(v)), ..old(self).meta@[node.0 as int] }),
            ),
    {
        let mut m = self.meta[node.0 as usize].clone();
        m.gate_branches = Some(Arc::new(v));
        self.meta.set(node.0 as usize, m);
    }

    pub fn set_field_access_info(&mut self, node: NodeId, v: u16)
        requires
            node.0 < old(self).meta.len(),
        ensures
            old(self).meta_replaced(
                final(self),
                node.0 as int,
                (NodeMeta { field_access_info: Some(v), ..old(self).meta@[node.0 as int] }),
            ),
    {
        let mut m = self.meta[node.0 as usize].clone();
        m.field_access_info = Some(v);
        self.meta.set(node.0 as usize, m);
    }

    pub fn set_record_lit_info(&mut self, node: NodeId, v: RecordLitInfo)
        requires
            node.0 < old(self).meta.len(),
        ensures
            old(self).meta_replaced(
                final(self),
                node.0 as int,
                (NodeMeta { record_lit_info: Some(Arc::new(v)), ..old(self).meta@[node.0 as int] }),
            ),
    {
        let mut m = self.meta[node.0 as usize].clone();
        m.record_lit_info = Some(Arc::new(v));
        self.meta.set(node.0 as usize, m);
    }

    pub fn set_ffi_call_name(&mut self, node: NodeId, v: String)
        requires
            node.0 < old(self).meta.len(),
        ensures
            old(self).meta_replaced(
                final(self),
                node.0 as int,
                (NodeMeta { ffi_call_name: Some(v), ..old(self).meta@[node.0 as int] }),
            ),
    {
        let mut m = self.meta[node.0 as usize].clone();
        m.ffi_call_name = Some(v);
        self.meta.set(node.0 as usize, m);
    }

    pub fn set_dyn_ffi_info(&mut self, node: NodeId, v: DynFfiInfo)
        requires
            node.0 < old(self).meta.len(),
        ensures
            old(self).meta_replaced(
                final(self),
                node.0 as int,
                (NodeMeta { dyn_ffi_info: Some(Arc::new(v)), ..old(self).meta@[node.0 as int] }),
            ),
    {
        let mut m = self.meta[node.0 as usize].clone();
        m.dyn_ffi_info = Some(Arc::new(v));
        self.meta.set(node.0 as usize, m);
    }

    pub fn set_field_set_name(&mut self, node: NodeId, v: String)
        requires
            node.0 < old(self).meta.len(),
        ensures
            old(self).meta_replaced(
                final(self),
                node.0 as int,
                (NodeMeta { field_set_name: Some(v), ..old(self).meta@[node.0 as int] }),
            ),
    {
        let mut m = self.meta[node.0 as usize].clone();
        m.field_set_name = Some(v);
        self.meta.set(node.0 as usize, m);
    }

    pub fn set_vtable_call(&mut self, node: NodeId, v: u16)
        requires
            node.0 < old(self).meta.len(),
        ensures
            old(self).meta_replaced(
                final(self),
                node.0 as int,
                (NodeMeta { vtable_call_method: Some(v), ..old(self).meta@[node.0 as int] }),
            ),
    {
        let mut m = self.meta[node.0 as usize].clone();
        m.vtable_call_method = Some(v);
        self.meta.set(node.0 as usize, m);
    }

    pub fn set_await_event_source(&mut self, node: NodeId, v: NodeId)
        requires
            node.0 < old(self).meta.len(),
        ensures
            old(self).meta_replaced(
                final(self),
                node.0 as int,
                (NodeMeta { await_event_source: Some(v), ..old(self).meta@[node.0 as int] }),
            ),
    {
        let mut m = self.meta[node.0 as usize].clone();
        m.await_event_source = Some(v);
        self.meta.set(node.0 as usize, m);
    }

    pub fn set_closure_info(&mut self, node: NodeId, v: ClosureInfo)
        requires
            node.0 < old(self).meta.len(),
        ensures
            old(self).meta_replaced(
                final(self),
                node.0 as int,
                (NodeMeta { closure_info: Some(v), ..old(self).meta@[node.0 as int] }),
            ),
    {
        let mut m = self.meta[node.0 as usize].clone();
        m.closure_info = Some(v);
        self.meta.set(node.0 as usize, m);
    }

    pub fn set_partial_info(&mut self, node: NodeId, v: PartialInfo)
        requires
            node.0 < old(self).meta.len(),
        ensures
            old(self).meta_replaced(
                final(self),
                node.0 as int,
                (NodeMeta { partial_info: Some(v), ..old(self).meta@[node.0 as int] }),
            ),
    {
        let mut m = self.meta[node.0 as usize].clone();
        m.partial_info = Some(v);
        self.meta.set(node.0 as usize, m);
    }

    pub fn set_closure_call_arg_count(&mut self, node: NodeId, v: u8)
        requires
            node.0 < old(self).meta.len(),
        ensures
            old(self).meta_replaced(
                final(self),
                node.0 as int,
                (NodeMeta { closure_call_arg_count: Some(v), ..old(self).meta@[node.0 as int] }),
            ),
    {
        let mut m = self.meta[node.0 as usize].clone();
        m.closure_call_arg_count = Some(v);
        self.meta.set(node.0 as usize, m);
    }

    pub fn set_select_info(&mut self, node: NodeId, v: SelectInfo)
        requires
            node.0 < old(self).meta.len(),
        ensures
            old(self).meta_replaced(
                final(self),
                node.0 as int,
                (NodeMeta { select_info: Some(Arc::new(v)), ..old(self).meta@[node.0 as int] }),
            ),
    {
        let mut m = self.meta[node.0 as usize].clone();
        m.select_info = Some(Arc::new(v));
        self.meta.set(node.0 as usize, m);
    }

    pub fn set_writeback_target(&mut self, node: NodeId, v: NodeId)
        requires
            node.0 < old(self).meta.len(),
        ensures
            old(self).meta_replaced(
                final(self),
                node.0 as int,
                (NodeMeta { writeback_target: Some(v), ..old(self).meta@[node.0 as int] }),
            ),
    {
        let mut m = self.meta[node.0 as usize].clone();
        m.writeback_target = Some(v);
        self.meta.set(node.0 as usize, m);
    }

    pub fn set_batch_info(&mut self, node: NodeId, v: BatchInfo)
        requires
            node.0 < old(self).meta.len(),
        ensures
            old(self).meta_replaced(
                final(self),
                node.0 as int,
                (NodeMeta { batch_info: Some(v), ..old(self).meta@[node.0 as int] }),
            ),
    {
        let mut m = self.meta[node.0 as usize].clone();
        m.batch_info = Some(v);
        self.meta.set(node.0 as usize, m);
    }

    pub fn set_trait_construct_info(&mut self, node: NodeId, v: TraitConstructInfo)
        requires
            node.0 < old(self).meta.len(),
        ensures
            old(self).meta_replaced(
                final(self),
                node.0 as int,
                (NodeMeta { trait_construct_info: Some(Arc::new(v)), ..old(self).meta@[node.0 as int] }),
            ),
    {
        let mut m = self.meta[node.0 as usize].clone();
        m.trait_construct_info = Some(Arc::new(v));
        self.meta.set(node.0 as usize, m);
    }

    pub fn set_lazy_construct_info(&mut self, node: NodeId, v: LazyConstructInfo)
        requires
            node.0 < old(self).meta.len(),
        ensures
            old(self).meta_replaced(
                final(self),
                node.0 as int,
                (NodeMeta { lazy_construct_info: Some(v), ..old(self).meta@[node.0 as int] }),
            ),
    {
        let mut m = self.meta[node.0 as usize].clone();
        m.lazy_construct_info = Some(v);
        self.meta.set(node.0 as usize, m);
    }

    pub fn set_record_extend_info(&mut self, node: NodeId, v: RecordExtendInfo)
        requires
            node.0 < old(self).meta.len(),
        ensures
            old(self).meta_replaced(
                final(self),
                node.0 as int,
                (NodeMeta { record_extend_info: Some(Arc::new(v)), ..old(self).meta@[node.0 as int] }),
            ),
    {
        let mut m = self.meta[node.0 as usize].clone();
        m.record_extend_info = Some(Arc::new(v));
        self.meta.set(node.0 as usize, m);
    }

    pub fn set_global_load_slot(&mut self, node: NodeId, v: u32)
        requires
            node.0 < old(self).meta.len(),
        ensures
            old(self).meta_replaced(
                final(self),
                node.0 as int,
                (NodeMeta { global_load_slot: Some(v), ..old(self).meta@[node.0 as int] }),
            ),
    {
        let mut m = self.meta[node.0 as usize].clone();
        m.global_load_slot = Some(v);
        self.meta.set(node.0 as usize, m);
    }

    pub fn set_global_store_slot(&mut self, node: NodeId, v: u32)
        requires
            node.0 < old(self).meta.len(),
        ensures
            old(self).meta_replaced(
                final(self),
                node.0 as int,
                (NodeMeta { global_store_slot: Some(v), ..old(self).meta@[node.0 as int] }),
            ),
    {
        let mut m = self.meta[node.0 as usize].clone();
        m.global_store_slot = Some(v);
        self.meta.set(node.0 as usize, m);
    }

    pub fn set_pattern_ctor_name(&mut self, node: NodeId, v: String)
        requires
            node.0 < old(self).meta.len(),
        ensures
            old(self).meta_replaced(
                final(self),
                node.0 as int,
                (NodeMeta { pattern_ctor_name: Some(v), ..old(self).meta@[node.0 as int] }),
            ),
    {
        let mut m = self.meta[node.0 as usize].clone();
        m.pattern_ctor_name = Some(v);
        self.meta.set(node.0 as usize, m);
    }

    pub fn set_pattern_type_name(&mut self, node: NodeId, v: String)
        requires
            node.0 < old(self).meta.len(),
        ensures
            old(self).meta_replaced(
                final(self),
                node.0 as int,
                (NodeMeta { pattern_type_name: Some(v), ..old(self).meta@[node.0 as int] }),
            ),
    {
        let mut m = self.meta[node.0 as usize].clone();
        m.pattern_type_name = Some(v);
        self.meta.set(node.0 as usize, m);
    }

    pub fn set_pattern_field_index(&mut self, node: NodeId, v: u16)
        requires
            node.0 < old(self).meta.len(),
        ensures
            old(self).meta_replaced(
                final(self),
                node.0 as int,
                (NodeMeta { pattern_field_index: Some(v), ..old(self).meta@[node.0 as int] }),
            ),
    {
        let mut m = self.meta[node.0 as usize].clone();
        m.pattern_field_index = Some(v);
        self.meta.set(node.0 as usize, m);
    }

    pub fn set_cast_target_type(&mut self, node: NodeId, v: String)
        requires
            node.0 < old(self).meta.len(),
        ensures
            old(self).meta_replaced(
                final(self),
                node.0 as int,
                (NodeMeta { cast_target_type: Some(v), ..old(self).meta@[node.0 as int] }),
            ),
    {
        let mut m = self.meta[node.0 as usize].clone();
        m.cast_target_type = Some(v);
        self.meta.set(node.0 as usize, m);
    }

    pub fn set_memo_info(&mut self, node: NodeId, v: MemoInfo)
        requires
            node.0 < old(self).meta.len(),
        ensures
            old(self).meta_replaced(
                final(self),
                node.0 as int,
                (NodeMeta { memo_info: Some(v), ..old(self).meta@[node.0 as int] }),
            ),
    {
        let mut m = self.meta[node.0 as usize].clone();
        m.memo_info = Some(v);
        self.meta.set(node.0 as usize, m);
    }

    pub fn set_tail_call(&mut self, node: NodeId)
        requires
            node.0 < old(self).meta.len(),
        ensures
            old(self).meta_replaced(
                final(self),
                node.0 as int,
                (NodeMeta { tail_call: true, ..old(self).meta@[node.0 as int] }),
            ),
    {
        let mut m = self.meta[node.0 as usize].clone();
        m.tail_call = true;
        self.meta.set(node.0 as usize, m);
    }

    pub fn set_safe_op(&mut self, node: NodeId)
        requires
            node.0 < old(self).meta.len(),
        ensures
            old(self).meta_replaced(
                final(self),
                node.0 as int,
                (NodeMeta { safe_op: true, ..old(self).meta@[node.0 as int] }),
            ),
    {
        let mut m = self.meta[node.0 as usize].clone();
        m.safe_op = true;
        self.meta.set(node.0 as usize, m);
    }

    pub fn set_hoisted(&mut self, node: NodeId)
        requires
            node.0 < old(self).meta.len(),
        ensures
            old(self).meta_replaced(
                final(self),
                node.0 as int,
                (NodeMeta { hoisted: true, ..old(self).meta@[node.0 as int] }),
            ),
    {
        let mut m = self.meta[node.0 as usize].clone();
        m.hoisted = true;
        self.meta.set(node.0 as usize, m);
    }

    pub fn set_slice_inclusive(&mut self, node: NodeId, v: bool)
        requires
            node.0 < old(self).meta.len(),
        ensures
            old(self).meta_replaced(
                final(self),
                node.0 as int,
                (NodeMeta { slice_inclusive: v, ..old(self).meta@[node.0 as int] }),
            ),
    {
        let mut m = self.meta[node.0 as usize].clone();
        m.slice_inclusive = v;
        self.meta.set(node.0 as usize, m);
    }

}

} // verus!
