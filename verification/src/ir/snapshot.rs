//! Copies of a graph, to go back to.

use super::graph::{DataFlowGraph, InputsPool, VtableEntry};
use super::meta::NodeMeta;
use super::refs::{defer_refs, sg_refs};
use super::types::{DeferEntry, NodeId, ResetPlan, SubGraph};
use vstd::prelude::*;

verus! {

/// Lists of lists with the same items.
pub open spec fn same_lists<T>(a: Seq<Vec<T>>, b: Seq<Vec<T>>) -> bool {
    a.len() == b.len() && forall|i: int| 0 <= i < a.len() ==> (#[trigger] a[i])@ == b[i]@
}

pub open spec fn same_plans(a: Seq<Option<Vec<NodeId>>>, b: Seq<Option<Vec<NodeId>>>) -> bool {
    &&& a.len() == b.len()
    &&& forall|i: int|
        0 <= i < a.len() ==> match (#[trigger] a[i], b[i]) {
            (Some(x), Some(y)) => x@ == y@,
            (None, None) => true,
            _ => false,
        }
}

pub open spec fn same_defer(a: DeferEntry, b: DeferEntry) -> bool {
    &&& a.trigger_node == b.trigger_node
    &&& a.body_subgraph == b.body_subgraph
    &&& a.captured_inputs@ == b.captured_inputs@
    &&& a.registered == b.registered
}

pub open spec fn same_defers(a: Seq<DeferEntry>, b: Seq<DeferEntry>) -> bool {
    a.len() == b.len() && forall|i: int| 0 <= i < a.len() ==> same_defer(#[trigger] a[i], b[i])
}

pub open spec fn same_reset(a: Option<ResetPlan>, b: Option<ResetPlan>) -> bool {
    match (a, b) {
        (Some(x), Some(y)) => {
            &&& x.reset_to_zero@ == y.reset_to_zero@
            &&& x.reset_to_one@ == y.reset_to_one@
            &&& x.reset_condition_tree@ == y.reset_condition_tree@
            &&& x.condition_tree_plan@ == y.condition_tree_plan@
        },
        (None, None) => true,
        _ => false,
    }
}

/// Subgraphs that say the same.
pub open spec fn same_subgraph(a: SubGraph, b: SubGraph) -> bool {
    &&& a.id == b.id
    &&& a.node_range == b.node_range
    &&& a.param_count == b.param_count
    &&& a.entry_node == b.entry_node
    &&& a.return_node == b.return_node
    &&& a.has_suspend == b.has_suspend
    &&& a.event_source_decls@ == b.event_source_decls@
    &&& same_defers(a.defer_table@, b.defer_table@)
    &&& a.loop_kind == b.loop_kind
    &&& a.loop_parent_sg == b.loop_parent_sg
    &&& a.cond_node == b.cond_node
    &&& a.function_id == b.function_id
    &&& a.iter_next_node == b.iter_next_node
    &&& a.upvalue_count == b.upvalue_count
    &&& a.upvalue_outer_nodes@ == b.upvalue_outer_nodes@
    &&& a.nested_ranges@ == b.nested_ranges@
    &&& same_reset(a.reset_plan, b.reset_plan)
}

/// Graphs that say the same.
pub open spec fn same_graph(a: DataFlowGraph, b: DataFlowGraph) -> bool {
    &&& a.nodes@ == b.nodes@
    &&& a.inputs_pool@ == b.inputs_pool@
    &&& a.meta@ == b.meta@
    &&& a.subgraphs@.len() == b.subgraphs@.len()
    &&& forall|s: int| 0 <= s < a.subgraphs@.len() ==> same_subgraph(#[trigger] a.subgraphs@[s], b.subgraphs@[s])
    &&& a.entry_subgraph == b.entry_subgraph
    &&& a.vtable_fallback_dispatch@ == b.vtable_fallback_dispatch@
    &&& a.sg_debug_names@ == b.sg_debug_names@
    &&& a.string_pool@ == b.string_pool@
    &&& a.ir_errors@ == b.ir_errors@
    &&& same_lists(a.downstreams@, b.downstreams@)
    &&& a.downstream_csr_offsets@ == b.downstream_csr_offsets@
    &&& a.downstream_csr_flat@ == b.downstream_csr_flat@
    &&& same_plans(a.linear_plans@, b.linear_plans@)
    &&& same_lists(a.sg_initial_pending@, b.sg_initial_pending@)
    &&& same_lists(a.sg_initial_seed@, b.sg_initial_seed@)
}

fn copy_all<T: Copy>(v: &Vec<T>) -> (r: Vec<T>)
    ensures
        r@ == v@,
{
    let mut r: Vec<T> = Vec::new();
    let mut i: usize = 0;
    while i < v.len()
        invariant
            i <= v@.len(),
            r@ =~= v@.take(i as int),
        decreases v@.len() - i,
    {
        r.push(v[i]);
        i = i + 1;
    }
    assert(v@.take(i as int) =~= v@);
    r
}

fn copy_lists<T: Copy>(v: &Vec<Vec<T>>) -> (r: Vec<Vec<T>>)
    ensures
        same_lists(v@, r@),
{
    let mut r: Vec<Vec<T>> = Vec::new();
    let mut i: usize = 0;
    while i < v.len()
        invariant
            i <= v@.len(),
            r@.len() == i,
            forall|k: int| 0 <= k < i ==> (#[trigger] v@[k])@ == r@[k]@,
        decreases v@.len() - i,
    {
        r.push(copy_all(&v[i]));
        i = i + 1;
    }
    r
}

fn copy_plans(v: &Vec<Option<Vec<NodeId>>>) -> (r: Vec<Option<Vec<NodeId>>>)
    ensures
        same_plans(v@, r@),
{
    let mut r: Vec<Option<Vec<NodeId>>> = Vec::new();
    let mut i: usize = 0;
    while i < v.len()
        invariant
            i <= v@.len(),
            r@.len() == i,
            forall|k: int|
                0 <= k < i ==> match (#[trigger] v@[k], r@[k]) {
                    (Some(x), Some(y)) => x@ == y@,
                    (None, None) => true,
                    _ => false,
                },
        decreases v@.len() - i,
    {
        match &v[i] {
            Some(x) => r.push(Some(copy_all(x))),
            None => r.push(None),
        }
        i = i + 1;
    }
    r
}

fn copy_names(v: &Vec<Option<String>>) -> (r: Vec<Option<String>>)
    ensures
        r@ == v@,
{
    let mut r: Vec<Option<String>> = Vec::new();
    let mut i: usize = 0;
    while i < v.len()
        invariant
            i <= v@.len(),
            r@ =~= v@.take(i as int),
        decreases v@.len() - i,
    {
        match &v[i] {
            Some(x) => r.push(Some(x.clone())),
            None => r.push(None),
        }
        i = i + 1;
    }
    assert(v@.take(i as int) =~= v@);
    r
}

fn copy_strings(v: &Vec<String>) -> (r: Vec<String>)
    ensures
        r@ == v@,
{
    let mut r: Vec<String> = Vec::new();
    let mut i: usize = 0;
    while i < v.len()
        invariant
            i <= v@.len(),
            r@ =~= v@.take(i as int),
        decreases v@.len() - i,
    {
        r.push(v[i].clone());
        i = i + 1;
    }
    assert(v@.take(i as int) =~= v@);
    r
}

fn copy_metas(v: &Vec<NodeMeta>) -> (r: Vec<NodeMeta>)
    ensures
        r@ == v@,
{
    let mut r: Vec<NodeMeta> = Vec::new();
    let mut i: usize = 0;
    while i < v.len()
        invariant
            i <= v@.len(),
            r@ =~= v@.take(i as int),
        decreases v@.len() - i,
    {
        r.push(v[i].clone());
        i = i + 1;
    }
    assert(v@.take(i as int) =~= v@);
    r
}

fn copy_vtable(v: &Vec<VtableEntry>) -> (r: Vec<VtableEntry>)
    ensures
        r@ == v@,
{
    let mut r: Vec<VtableEntry> = Vec::new();
    let mut i: usize = 0;
    while i < v.len()
        invariant
            i <= v@.len(),
            r@ =~= v@.take(i as int),
        decreases v@.len() - i,
    {
        let e = &v[i];
        r.push(VtableEntry { method_idx: e.method_idx, owner_type: e.owner_type.clone(), target: e.target });
        i = i + 1;
    }
    assert(v@.take(i as int) =~= v@);
    r
}

fn copy_defers(v: &Vec<DeferEntry>) -> (r: Vec<DeferEntry>)
    ensures
        same_defers(v@, r@),
{
    let mut r: Vec<DeferEntry> = Vec::new();
    let mut i: usize = 0;
    while i < v.len()
        invariant
            i <= v@.len(),
            r@.len() == i,
            forall|k: int| 0 <= k < i ==> same_defer(#[trigger] v@[k], r@[k]),
        decreases v@.len() - i,
    {
        let e = &v[i];
        r.push(
            DeferEntry {
                trigger_node: e.trigger_node,
                body_subgraph: e.body_subgraph,
                captured_inputs: copy_all(&e.captured_inputs),
                registered: e.registered,
            },
        );
        i = i + 1;
    }
    r
}

impl Clone for SubGraph {
    fn clone(&self) -> (r: Self)
        ensures
            same_subgraph(*self, r),
    {
        SubGraph {
            id: self.id,
            node_range: self.node_range,
            param_count: self.param_count,
            entry_node: self.entry_node,
            return_node: self.return_node,
            has_suspend: self.has_suspend,
            event_source_decls: copy_all(&self.event_source_decls),
            defer_table: copy_defers(&self.defer_table),
            loop_kind: self.loop_kind,
            loop_parent_sg: self.loop_parent_sg,
            cond_node: self.cond_node,
            function_id: self.function_id,
            iter_next_node: self.iter_next_node,
            upvalue_count: self.upvalue_count,
            upvalue_outer_nodes: copy_all(&self.upvalue_outer_nodes),
            nested_ranges: copy_all(&self.nested_ranges),
            reset_plan: match &self.reset_plan {
                Some(p) => Some(
                    ResetPlan {
                        reset_to_zero: copy_all(&p.reset_to_zero),
                        reset_to_one: copy_all(&p.reset_to_one),
                        reset_condition_tree: copy_all(&p.reset_condition_tree),
                        condition_tree_plan: copy_all(&p.condition_tree_plan),
                    },
                ),
                None => None,
            },
        }
    }
}

fn copy_subgraphs(v: &Vec<SubGraph>) -> (r: Vec<SubGraph>)
    ensures
        r@.len() == v@.len(),
        forall|k: int| 0 <= k < v@.len() ==> same_subgraph(#[trigger] v@[k], r@[k]),
{
    let mut r: Vec<SubGraph> = Vec::new();
    let mut i: usize = 0;
    while i < v.len()
        invariant
            i <= v@.len(),
            r@.len() == i,
            forall|k: int| 0 <= k < i ==> same_subgraph(#[trigger] v@[k], r@[k]),
        decreases v@.len() - i,
    {
        r.push(v[i].clone());
        i = i + 1;
    }
    r
}

impl Clone for DataFlowGraph {
    fn clone(&self) -> (r: Self)
        ensures
            same_graph(*self, r),
    {
        DataFlowGraph {
            nodes: copy_all(&self.nodes),
            inputs_pool: InputsPool { data: copy_all(&self.inputs_pool.data) },
            meta: copy_metas(&self.meta),
            subgraphs: copy_subgraphs(&self.subgraphs),
            entry_subgraph: self.entry_subgraph,
            vtable_fallback_dispatch: copy_vtable(&self.vtable_fallback_dispatch),
            sg_debug_names: copy_names(&self.sg_debug_names),
            string_pool: copy_all(&self.string_pool),
            ir_errors: copy_strings(&self.ir_errors),
            downstreams: copy_lists(&self.downstreams),
            downstream_csr_offsets: copy_all(&self.downstream_csr_offsets),
            downstream_csr_flat: copy_all(&self.downstream_csr_flat),
            linear_plans: copy_plans(&self.linear_plans),
            sg_initial_pending: copy_lists(&self.sg_initial_pending),
            sg_initial_seed: copy_lists(&self.sg_initial_seed),
        }
    }
}

proof fn lemma_same_defer_refs(a: Seq<DeferEntry>, b: Seq<DeferEntry>)
    requires
        same_defers(a, b),
    ensures
        defer_refs(a) == defer_refs(b),
    decreases a.len(),
{
    if a.len() > 0 {
        assert(same_defer(a[a.len() - 1], b[b.len() - 1]));
        assert forall|i: int| 0 <= i < a.len() - 1 implies same_defer(
            #[trigger] a.drop_last()[i],
            b.drop_last()[i],
        ) by {
            assert(same_defer(a[i], b[i]));
        }
        lemma_same_defer_refs(a.drop_last(), b.drop_last());
    }
}

/// Graphs that say the same refer to the same nodes and are fit for the same
/// passes.
pub proof fn law_copies_are_as_valid(a: DataFlowGraph, b: DataFlowGraph)
    requires
        same_graph(a, b),
    ensures
        a.wf() == b.wf(),
        a.inputs_wf() == b.inputs_wf(),
        a.sg_ids_wf() == b.sg_ids_wf(),
        forall|n: int| a.door_below(n) == b.door_below(n),
{
    assert forall|i: int| a.inputs_of(i) == b.inputs_of(i) by {}
    assert forall|s: int| 0 <= s < a.subgraphs@.len() implies #[trigger] sg_refs(a.subgraphs@[s]) == sg_refs(
        b.subgraphs@[s],
    ) by {
        assert(same_subgraph(a.subgraphs@[s], b.subgraphs@[s]));
        lemma_same_defer_refs(a.subgraphs@[s].defer_table@, b.subgraphs@[s].defer_table@);
    }
    assert forall|s: int| 0 <= s < a.subgraphs@.len() implies (#[trigger] a.subgraphs@[s]).id == b.subgraphs@[s].id by {
        assert(same_subgraph(a.subgraphs@[s], b.subgraphs@[s]));
    }
    if a.inputs_wf() {
        assert forall|i: int, j: int| #![trigger b.inputs_of(i)[j]]
            0 <= i < b.nodes@.len() && 0 <= j < b.inputs_of(i).len() implies b.inputs_of(i)[j].0 < b.nodes@.len() by {
            assert(a.inputs_of(i)[j].0 < a.nodes@.len());
        }
    }
    if b.inputs_wf() {
        assert forall|i: int, j: int| #![trigger a.inputs_of(i)[j]]
            0 <= i < a.nodes@.len() && 0 <= j < a.inputs_of(i).len() implies a.inputs_of(i)[j].0 < a.nodes@.len() by {
            assert(b.inputs_of(i)[j].0 < b.nodes@.len());
        }
    }
    if a.sg_ids_wf() {
        assert forall|s: int| #![trigger b.subgraphs@[s]] 0 <= s < b.subgraphs@.len() implies b.subgraphs@[s].id.0
            == s by {
            assert(a.subgraphs@[s].id.0 == s);
        }
    }
    assert forall|n: int| a.door_below(n) == b.door_below(n) by {
        if a.door_below(n) {
            assert forall|s: int| 0 <= s < b.subgraphs@.len() implies super::refs::all_below(
                #[trigger] sg_refs(b.subgraphs@[s]),
                n,
            ) by {
                assert(sg_refs(a.subgraphs@[s]) == sg_refs(b.subgraphs@[s]));
            }
        }
        if b.door_below(n) {
            assert forall|s: int| 0 <= s < a.subgraphs@.len() implies super::refs::all_below(
                #[trigger] sg_refs(a.subgraphs@[s]),
                n,
            ) by {
                assert(sg_refs(a.subgraphs@[s]) == sg_refs(b.subgraphs@[s]));
            }
        }
    }
}

} // verus!
