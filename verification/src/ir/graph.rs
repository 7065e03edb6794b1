//! The dataflow graph: nodes, their inputs and metadata, and the subgraphs
//! that partition them.

use vstd::prelude::*;

use crate::fx::IdSet;
use crate::ir::compute_fns::{pure_compute_fn_set, pure_ids};
use crate::ir::meta::NodeMeta;
use crate::ir::types::{ComputeFnId, LoopKind, Node, NodeId, NodeKind, SubGraph, SubGraphId};

verus! {

/// Standalone input pool: the inputs of all nodes, each node's contiguous.
#[derive(Debug)]
pub struct InputsPool {
    pub data: Vec<NodeId>,
}

impl View for InputsPool {
    type V = Seq<NodeId>;

    open spec fn view(&self) -> Seq<NodeId> {
        self.data@
    }
}

impl InputsPool {
    pub fn new() -> (r: Self)
        ensures
            r@ == Seq::<NodeId>::empty(),
    {
        InputsPool { data: Vec::new() }
    }

    /// Appends a group of inputs; returns where it starts.
    pub fn push(&mut self, inputs: &[NodeId]) -> (offset: u32)
        requires
            old(self)@.len() <= u32::MAX,
        ensures
            offset == old(self)@.len(),
            final(self)@ == old(self)@ + inputs@,
    {
        let offset = self.data.len() as u32;
        let mut i: usize = 0;
        while i < inputs.len()
            invariant
                i <= inputs.len(),
                self.data@ == old(self)@ + inputs@.take(i as int),
            decreases inputs.len() - i,
        {
            self.data.push(inputs[i]);
            assert(inputs@.take(i + 1) =~= inputs@.take(i as int).push(inputs@[i as int]));
            i = i + 1;
        }
        assert(inputs@.take(inputs@.len() as int) =~= inputs@);
        offset
    }

    /// The inputs at the given position.
    pub fn get(&self, offset: u32, count: u8) -> (r: &[NodeId])
        requires
            offset + count <= self@.len(),
        ensures
            r@ == self@.subrange(offset as int, offset + count),
    {
        let start = offset as usize;
        let pool = self.data.as_slice();
        assert(pool@.len() == pool.len() <= usize::MAX);
        let end = start + count as usize;
        vstd::slice::slice_subrange(pool, start, end)
    }

    /// Current pool length.
    pub fn len(&self) -> (r: usize)
        ensures
            r == self@.len(),
    {
        self.data.len()
    }

    /// Whether the pool is empty.
    pub fn is_empty(&self) -> (r: bool)
        ensures
            r == (self@.len() == 0),
    {
        self.data.len() == 0
    }
}

impl Default for InputsPool {
    fn default() -> (r: Self)
        ensures
            r@ == Seq::<NodeId>::empty(),
    {
        InputsPool::new()
    }
}

/// Target of a method on a concrete type, for dynamic dispatch.
#[derive(Debug)]
pub struct VtableEntry {
    pub method_idx: u16,
    pub owner_type: String,
    pub target: SubGraphId,
}

/// Whether the two entries are for one method of one type.
pub open spec fn same_dispatch(a: VtableEntry, b: VtableEntry) -> bool {
    a.method_idx == b.method_idx && a.owner_type@ == b.owner_type@
}

/// Dataflow graph.
///
/// `meta` and `downstreams` run parallel to `nodes`; `sg_debug_names`, where
/// it is filled, runs parallel to `subgraphs`. The last five fields are
/// derived from the rest.
#[derive(Debug)]
pub struct DataFlowGraph {
    /// All nodes (globally contiguous, indexed by `NodeId`).
    pub nodes: Vec<Node>,
    /// Standalone input pool.
    pub inputs_pool: InputsPool,
    /// Metadata of each node.
    pub meta: Vec<NodeMeta>,
    /// All subgraphs.
    pub subgraphs: Vec<SubGraph>,
    /// Program entry subgraph.
    pub entry_subgraph: Option<SubGraphId>,
    /// Dispatch targets of calls on concrete types; no (method, type) pair
    /// occurs twice.
    pub vtable_fallback_dispatch: Vec<VtableEntry>,
    /// Qualified function name of each subgraph, for diagnostics.
    pub sg_debug_names: Vec<Option<String>>,
    /// Bytes that string constants refer to.
    pub string_pool: Vec<u8>,
    /// Errors of the build.
    pub ir_errors: Vec<String>,
    /// Nodes that use each node as an input.
    pub downstreams: Vec<Vec<NodeId>>,
    /// Flat downstream table: bounds of each node's slice.
    pub downstream_csr_offsets: Vec<u32>,
    /// Flat downstream table: the slices.
    pub downstream_csr_flat: Vec<NodeId>,
    /// Linearized execution plan of each subgraph.
    pub linear_plans: Vec<Option<Vec<NodeId>>>,
    /// Initial pending counts of each subgraph's frame.
    pub sg_initial_pending: Vec<Vec<u16>>,
    /// Initial ready nodes of each subgraph's frame.
    pub sg_initial_seed: Vec<Vec<NodeId>>,
}

/// Whether the id lies in the range.
pub open spec fn in_range(range: (NodeId, NodeId), id: int) -> bool {
    range.0.0 <= id < range.1.0
}

/// Number of ids in the range.
pub open spec fn range_size(range: (NodeId, NodeId)) -> int {
    range.1.0 - range.0.0
}

/// Whether `outer` contains every id of `inner`, bound by bound.
pub open spec fn range_within(inner: (NodeId, NodeId), outer: (NodeId, NodeId)) -> bool {
    outer.0.0 <= inner.0.0 && inner.1.0 <= outer.1.0
}

/// Whether the subgraph is at function level by its own fields: no loop, and
/// not the body of one.
pub open spec fn outside_loops(sg: SubGraph) -> bool {
    sg.loop_kind == LoopKind::NotLoop && sg.loop_parent_sg is None
}

/// Whether the subgraph is a function's own subgraph.
pub open spec fn is_function_sg(sg: SubGraph) -> bool {
    outside_loops(sg) && sg.id.0 == sg.function_id
}

impl DataFlowGraph {
    /// Inputs of node `i`.
    pub open spec fn inputs_of(&self, i: int) -> Seq<NodeId> {
        self.inputs_pool@.subrange(
            self.nodes@[i].inputs_offset as int,
            self.nodes@[i].inputs_offset + self.nodes@[i].input_count,
        )
    }

    /// Metadata runs parallel to the nodes, ids fit, and every node's inputs
    /// lie in the pool.
    pub open spec fn wf(&self) -> bool {
        &&& self.meta@.len() == self.nodes@.len()
        &&& self.nodes@.len() <= u32::MAX
        &&& self.inputs_pool@.len() <= u32::MAX
        &&& forall|i: int| #![trigger self.nodes@[i]]
            0 <= i < self.nodes@.len() ==> self.nodes@[i].inputs_offset + self.nodes@[i].input_count
                <= self.inputs_pool@.len()
    }

    /// Every input of every node is a node.
    pub open spec fn inputs_wf(&self) -> bool {
        forall|i: int, j: int| #![trigger self.inputs_of(i)[j]]
            0 <= i < self.nodes@.len() && 0 <= j < self.inputs_of(i).len() ==> self.inputs_of(
                i,
            )[j].0 < self.nodes@.len()
    }

    /// No (method, type) pair has two dispatch targets.
    pub open spec fn dispatch_wf(&self) -> bool {
        forall|i: int, j: int|
            0 <= i < j < self.vtable_fallback_dispatch@.len() ==> !same_dispatch(
                #[trigger] self.vtable_fallback_dispatch@[i],
                #[trigger] self.vtable_fallback_dispatch@[j],
            )
    }

    /// Everything but the metadata is the same.
    pub open spec fn same_but_meta(&self, other: &DataFlowGraph) -> bool {
        &&& self.nodes@ == other.nodes@
        &&& self.inputs_pool@ == other.inputs_pool@
        &&& self.same_frame(other)
    }

    /// Everything but nodes, inputs, metadata and node-to-node edges is the
    /// same.
    pub open spec fn same_frame(&self, other: &DataFlowGraph) -> bool {
        &&& self.subgraphs@ == other.subgraphs@
        &&& self.entry_subgraph == other.entry_subgraph
        &&& self.vtable_fallback_dispatch@ == other.vtable_fallback_dispatch@
        &&& self.sg_debug_names@ == other.sg_debug_names@
        &&& self.string_pool@ == other.string_pool@
        &&& self.ir_errors@ == other.ir_errors@
        &&& self.downstreams@ == other.downstreams@
        &&& self.downstream_csr_offsets@ == other.downstream_csr_offsets@
        &&& self.downstream_csr_flat@ == other.downstream_csr_flat@
        &&& self.linear_plans@ == other.linear_plans@
        &&& self.sg_initial_pending@ == other.sg_initial_pending@
        &&& self.sg_initial_seed@ == other.sg_initial_seed@
    }

    /// An empty graph.
    pub fn new() -> (r: Self)
        ensures
            r.nodes@.len() == 0,
            r.inputs_pool@.len() == 0,
            r.meta@.len() == 0,
            r.subgraphs@.len() == 0,
            r.entry_subgraph is None,
            r.vtable_fallback_dispatch@.len() == 0,
            r.sg_debug_names@.len() == 0,
            r.string_pool@.len() == 0,
            r.ir_errors@.len() == 0,
            r.downstreams@.len() == 0,
            r.downstream_csr_offsets@.len() == 0,
            r.downstream_csr_flat@.len() == 0,
            r.linear_plans@.len() == 0,
            r.sg_initial_pending@.len() == 0,
            r.sg_initial_seed@.len() == 0,
            r.wf(),
            r.dispatch_wf(),
    {
        DataFlowGraph {
            nodes: Vec::new(),
            inputs_pool: InputsPool::new(),
            meta: Vec::new(),
            subgraphs: Vec::new(),
            entry_subgraph: None,
            vtable_fallback_dispatch: Vec::new(),
            sg_debug_names: Vec::new(),
            string_pool: Vec::new(),
            ir_errors: Vec::new(),
            downstreams: Vec::new(),
            downstream_csr_offsets: Vec::new(),
            downstream_csr_flat: Vec::new(),
            linear_plans: Vec::new(),
            sg_initial_pending: Vec::new(),
            sg_initial_seed: Vec::new(),
        }
    }

    /// Number of nodes.
    pub fn node_count(&self) -> (r: usize)
        ensures
            r == self.nodes@.len(),
    {
        self.nodes.len()
    }

    /// Inputs of a node.
    pub fn inputs(&self, idx: usize) -> (r: &[NodeId])
        requires
            idx < self.nodes@.len(),
            self.nodes@[idx as int].inputs_offset + self.nodes@[idx as int].input_count
                <= self.inputs_pool@.len(),
        ensures
            r@ == self.inputs_of(idx as int),
    {
        let node = self.nodes[idx];
        self.inputs_pool.get(node.inputs_offset, node.input_count)
    }

    /// Linearized execution plan of a subgraph: none if it is not linearizable
    /// or has not been planned.
    pub fn linear_plan(&self, sg_idx: usize) -> (r: Option<&[NodeId]>)
        ensures
            r is Some <==> sg_idx < self.linear_plans@.len()
                && self.linear_plans@[sg_idx as int] is Some,
            r is Some ==> r->0@ == self.linear_plans@[sg_idx as int]->0@,
    {
        if sg_idx >= self.linear_plans.len() {
            return None;
        }
        match &self.linear_plans[sg_idx] {
            None => None,
            Some(plan) => Some(plan.as_slice()),
        }
    }

    /// Appends a node with blank metadata; returns its id.
    pub fn add_node(&mut self, node: Node) -> (id: NodeId)
        requires
            old(self).nodes@.len() <= u32::MAX,
        ensures
            id.0 == old(self).nodes@.len(),
            final(self).nodes@ == old(self).nodes@.push(node),
            final(self).meta@ == old(self).meta@.push(NodeMeta::blank()),
            final(self).inputs_pool@ == old(self).inputs_pool@,
            final(self).downstreams@.len() == old(self).downstreams@.len() + 1,
            final(self).downstreams@.drop_last() == old(self).downstreams@,
            final(self).downstreams@.last()@ == Seq::<NodeId>::empty(),
            final(self).same_but_edges(old(self)),
    {
        let id = NodeId(self.nodes.len() as u32);
        self.nodes.push(node);
        self.meta.push(NodeMeta::new());
        self.downstreams.push(Vec::new());
        assert(self.downstreams@.drop_last() =~= old(self).downstreams@);
        id
    }

    /// Everything but nodes, inputs, metadata and `downstreams` is the same.
    pub open spec fn same_but_edges(&self, other: &DataFlowGraph) -> bool {
        &&& self.subgraphs@ == other.subgraphs@
        &&& self.entry_subgraph == other.entry_subgraph
        &&& self.vtable_fallback_dispatch@ == other.vtable_fallback_dispatch@
        &&& self.sg_debug_names@ == other.sg_debug_names@
        &&& self.string_pool@ == other.string_pool@
        &&& self.ir_errors@ == other.ir_errors@
        &&& self.downstream_csr_offsets@ == other.downstream_csr_offsets@
        &&& self.downstream_csr_flat@ == other.downstream_csr_flat@
        &&& self.linear_plans@ == other.linear_plans@
        &&& self.sg_initial_pending@ == other.sg_initial_pending@
        &&& self.sg_initial_seed@ == other.sg_initial_seed@
    }

    /// Appends a node of the given kind and inputs, with blank metadata;
    /// returns its id.
    pub fn add_node_raw(&mut self, kind: NodeKind, inputs: &[NodeId], compute_fn: ComputeFnId) -> (id:
        NodeId)
        requires
            old(self).nodes@.len() <= u32::MAX,
            old(self).inputs_pool@.len() <= u32::MAX,
            inputs@.len() <= u8::MAX,
        ensures
            id.0 == old(self).nodes@.len(),
            final(self).nodes@ == old(self).nodes@.push(
                (Node {
                    kind,
                    input_count: inputs@.len() as u8,
                    inputs_offset: old(self).inputs_pool@.len() as u32,
                    compute_fn,
                }),
            ),
            final(self).inputs_pool@ == old(self).inputs_pool@ + inputs@,
            final(self).meta@ == old(self).meta@.push(NodeMeta::blank()),
            final(self).downstreams@.len() == old(self).downstreams@.len() + 1,
            final(self).downstreams@.drop_last() == old(self).downstreams@,
            final(self).downstreams@.last()@ == Seq::<NodeId>::empty(),
            final(self).same_but_edges(old(self)),
    {
        let inputs_offset = self.inputs_pool.push(inputs);
        self.add_node(Node { kind, input_count: inputs.len() as u8, inputs_offset, compute_fn })
    }

    /// Copies all metadata of one node to another.
    pub fn clone_node_metadata(&mut self, src_idx: usize, dst_idx: usize)
        requires
            src_idx < old(self).meta@.len(),
            dst_idx < old(self).meta@.len(),
        ensures
            final(self).meta@ == old(self).meta@.update(
                dst_idx as int,
                old(self).meta@[src_idx as int],
            ),
            final(self).same_but_meta(old(self)),
    {
        let m = self.meta[src_idx].clone();
        self.meta.set(dst_idx, m);
    }

    /// Appends a subgraph; returns its id.
    pub fn add_subgraph(&mut self, sg: SubGraph) -> (id: SubGraphId)
        requires
            old(self).subgraphs@.len() <= u32::MAX,
        ensures
            id.0 == old(self).subgraphs@.len(),
            final(self).subgraphs@ == old(self).subgraphs@.push(sg),
            final(self).same_but_subgraphs(old(self)),
    {
        let id = SubGraphId(self.subgraphs.len() as u32);
        self.subgraphs.push(sg);
        id
    }

    /// Everything but the subgraphs is the same.
    pub open spec fn same_but_subgraphs(&self, other: &DataFlowGraph) -> bool {
        &&& self.nodes@ == other.nodes@
        &&& self.inputs_pool@ == other.inputs_pool@
        &&& self.meta@ == other.meta@
        &&& self.entry_subgraph == other.entry_subgraph
        &&& self.vtable_fallback_dispatch@ == other.vtable_fallback_dispatch@
        &&& self.sg_debug_names@ == other.sg_debug_names@
        &&& self.string_pool@ == other.string_pool@
        &&& self.ir_errors@ == other.ir_errors@
        &&& self.downstreams@ == other.downstreams@
        &&& self.downstream_csr_offsets@ == other.downstream_csr_offsets@
        &&& self.downstream_csr_flat@ == other.downstream_csr_flat@
        &&& self.linear_plans@ == other.linear_plans@
        &&& self.sg_initial_pending@ == other.sg_initial_pending@
        &&& self.sg_initial_seed@ == other.sg_initial_seed@
    }

    /// Sets the program entry subgraph.
    pub fn set_entry_subgraph(&mut self, id: SubGraphId)
        ensures
            *final(self) == (DataFlowGraph { entry_subgraph: Some(id), ..*old(self) }),
    {
        self.entry_subgraph = Some(id);
    }

    // ---- finding subgraphs -------------------------------------------------

    /// `best` is the smallest subgraph among those that `wanted` admits, the
    /// first of them where several are equally small; none where none is
    /// admitted.
    pub open spec fn smallest_first(
        &self,
        wanted: spec_fn(int) -> bool,
        best: Option<SubGraphId>,
    ) -> bool {
        match best {
            None => forall|i: int| 0 <= i < self.subgraphs@.len() ==> !#[trigger] wanted(i),
            Some(b) => {
                &&& b.0 < self.subgraphs@.len()
                &&& wanted(b.0 as int)
                &&& forall|i: int|
                    0 <= i < self.subgraphs@.len() && #[trigger] wanted(i) ==> {
                        ||| range_size(self.subgraphs@[b.0 as int].node_range) < range_size(
                            self.subgraphs@[i].node_range,
                        )
                        ||| range_size(self.subgraphs@[b.0 as int].node_range) == range_size(
                            self.subgraphs@[i].node_range,
                        ) && b.0 <= i
                    }
            },
        }
    }

    /// `best` is the largest subgraph among those that `wanted` admits, the
    /// first of them where several are equally large.
    pub open spec fn largest_first(
        &self,
        wanted: spec_fn(int) -> bool,
        best: Option<SubGraphId>,
    ) -> bool {
        match best {
            None => forall|i: int| 0 <= i < self.subgraphs@.len() ==> !#[trigger] wanted(i),
            Some(b) => {
                &&& b.0 < self.subgraphs@.len()
                &&& wanted(b.0 as int)
                &&& forall|i: int|
                    0 <= i < self.subgraphs@.len() && #[trigger] wanted(i) ==> {
                        ||| range_size(self.subgraphs@[b.0 as int].node_range) > range_size(
                            self.subgraphs@[i].node_range,
                        )
                        ||| range_size(self.subgraphs@[b.0 as int].node_range) == range_size(
                            self.subgraphs@[i].node_range,
                        ) && b.0 <= i
                    }
            },
        }
    }

    /// Whether subgraph `i` contains the node.
    pub open spec fn holds(&self, node: NodeId) -> spec_fn(int) -> bool {
        |i: int| in_range(self.subgraphs@[i].node_range, node.0 as int)
    }

    /// Whether subgraph `i` contains the node and is outside loops.
    pub open spec fn holds_outside_loops(&self, node: NodeId) -> spec_fn(int) -> bool {
        |i: int|
            in_range(self.subgraphs@[i].node_range, node.0 as int) && outside_loops(
                self.subgraphs@[i],
            )
    }

    /// Whether subgraph `i` is another one whose range strictly contains that
    /// of `sg`.
    pub open spec fn strictly_encloses(&self, sg: SubGraphId) -> spec_fn(int) -> bool {
        |i: int|
            i != sg.0 && range_within(
                self.subgraphs@[sg.0 as int].node_range,
                self.subgraphs@[i].node_range,
            ) && self.subgraphs@[i].node_range != self.subgraphs@[sg.0 as int].node_range
    }

    /// The function subgraph of a node: the outermost subgraph outside loops
    /// that contains it. A node that only loop subgraphs contain belongs to
    /// the outermost of those.
    pub open spec fn function_sg_of(&self, node: NodeId, r: Option<SubGraphId>) -> bool {
        if exists|i: int| 0 <= i < self.subgraphs@.len() && #[trigger] self.holds_outside_loops(node)(i) {
            self.largest_first(self.holds_outside_loops(node), r)
        } else {
            self.largest_first(self.holds(node), r)
        }
    }

    /// Finds the function subgraph that contains the node (see
    /// `function_sg_of`).
    pub fn find_function_sg_for_node(&self, node: NodeId) -> (r: Option<SubGraphId>)
        requires
            self.subgraphs@.len() <= u32::MAX,
        ensures
            self.function_sg_of(node, r),
    {
        let mut func: Option<SubGraphId> = None;
        let mut any: Option<SubGraphId> = None;
        let n = self.subgraphs.len();
        let mut i: usize = 0;
        while i < n
            invariant
                n == self.subgraphs@.len() <= u32::MAX,
                i <= n,
                func is Some ==> (func->0).0 < i && self.holds_outside_loops(node)((func->0).0 as int),
                any is Some ==> (any->0).0 < i && self.holds(node)((any->0).0 as int),
                forall|k: int|
                    0 <= k < i && #[trigger] self.holds_outside_loops(node)(k) ==> {
                        &&& func is Some
                        &&& {
                            let b = range_size(self.subgraphs@[(func->0).0 as int].node_range);
                            let c = range_size(self.subgraphs@[k].node_range);
                            b > c || b == c && (func->0).0 <= k
                        }
                    },
                forall|k: int|
                    0 <= k < i && #[trigger] self.holds(node)(k) ==> {
                        &&& any is Some
                        &&& {
                            let b = range_size(self.subgraphs@[(any->0).0 as int].node_range);
                            let c = range_size(self.subgraphs@[k].node_range);
                            b > c || b == c && (any->0).0 <= k
                        }
                    },
            decreases n - i,
        {
            let range = self.subgraphs[i].node_range;
            if range.0.0 <= node.0 && node.0 < range.1.0 {
                assert(self.holds(node)(i as int));
                let size = range.1.0 - range.0.0;
                let wider = match any {
                    None => true,
                    Some(b) => {
                        let br = self.subgraphs[b.0 as usize].node_range;
                        assert(self.holds(node)(b.0 as int));
                        size > br.1.0 - br.0.0
                    },
                };
                if wider {
                    any = Some(SubGraphId(i as u32));
                }
                if self.subgraphs[i].loop_kind == LoopKind::NotLoop
                    && self.subgraphs[i].loop_parent_sg.is_none() {
                    assert(self.holds_outside_loops(node)(i as int));
                    let wider_func = match func {
                        None => true,
                        Some(b) => {
                            let br = self.subgraphs[b.0 as usize].node_range;
                            assert(self.holds_outside_loops(node)(b.0 as int));
                            size > br.1.0 - br.0.0
                        },
                    };
                    if wider_func {
                        func = Some(SubGraphId(i as u32));
                    }
                }
            }
            i = i + 1;
        }
        match func {
            Some(_) => func,
            None => any,
        }
    }

    /// Finds the innermost subgraph that contains the node.
    pub fn find_innermost_sg_for_node(&self, node: NodeId) -> (r: Option<SubGraphId>)
        requires
            self.subgraphs@.len() <= u32::MAX,
        ensures
            self.smallest_first(self.holds(node), r),
    {
        let mut best: Option<SubGraphId> = None;
        let n = self.subgraphs.len();
        let mut i: usize = 0;
        while i < n
            invariant
                n == self.subgraphs@.len() <= u32::MAX,
                i <= n,
                best is Some ==> (best->0).0 < i && self.holds(node)((best->0).0 as int),
                forall|k: int|
                    0 <= k < i && #[trigger] self.holds(node)(k) ==> {
                        &&& best is Some
                        &&& {
                            let b = range_size(self.subgraphs@[(best->0).0 as int].node_range);
                            let c = range_size(self.subgraphs@[k].node_range);
                            b < c || b == c && (best->0).0 <= k
                        }
                    },
            decreases n - i,
        {
            let range = self.subgraphs[i].node_range;
            if range.0.0 <= node.0 && node.0 < range.1.0 {
                assert(self.holds(node)(i as int));
                let size = range.1.0 - range.0.0;
                let closer = match best {
                    None => true,
                    Some(b) => {
                        let br = self.subgraphs[b.0 as usize].node_range;
                        assert(self.holds(node)(b.0 as int));
                        size < br.1.0 - br.0.0
                    },
                };
                if closer {
                    best = Some(SubGraphId(i as u32));
                }
            }
            i = i + 1;
        }
        best
    }

    /// Finds the smallest subgraph whose range strictly contains that of the
    /// given one.
    pub fn find_immediate_parent_sg(&self, sg_id: SubGraphId) -> (r: Option<SubGraphId>)
        requires
            self.subgraphs@.len() <= u32::MAX,
            sg_id.0 < self.subgraphs@.len(),
            range_size(self.subgraphs@[sg_id.0 as int].node_range) >= 0,
        ensures
            self.smallest_first(self.strictly_encloses(sg_id), r),
    {
        let child = self.subgraphs[sg_id.0 as usize].node_range;
        let mut best: Option<SubGraphId> = None;
        let n = self.subgraphs.len();
        let mut i: usize = 0;
        while i < n
            invariant
                n == self.subgraphs@.len() <= u32::MAX,
                sg_id.0 < n,
                child == self.subgraphs@[sg_id.0 as int].node_range,
                range_size(child) >= 0,
                i <= n,
                best is Some ==> (best->0).0 < i && self.strictly_encloses(sg_id)((best->0).0 as int),
                forall|k: int|
                    0 <= k < i && #[trigger] self.strictly_encloses(sg_id)(k) ==> {
                        &&& best is Some
                        &&& {
                            let b = range_size(self.subgraphs@[(best->0).0 as int].node_range);
                            let c = range_size(self.subgraphs@[k].node_range);
                            b < c || b == c && (best->0).0 <= k
                        }
                    },
            decreases n - i,
        {
            let range = self.subgraphs[i].node_range;
            if i != sg_id.0 as usize && range.0.0 <= child.0.0 && child.1.0 <= range.1.0 && (
            range.0.0 < child.0.0 || range.1.0 > child.1.0) {
                assert(self.strictly_encloses(sg_id)(i as int));
                let size = range.1.0 - range.0.0;
                let closer = match best {
                    None => true,
                    Some(b) => {
                        let br = self.subgraphs[b.0 as usize].node_range;
                        assert(self.strictly_encloses(sg_id)(b.0 as int));
                        size < br.1.0 - br.0.0
                    },
                };
                if closer {
                    best = Some(SubGraphId(i as u32));
                }
            }
            i = i + 1;
        }
        best
    }
}

impl Default for DataFlowGraph {
    fn default() -> (r: Self)
        ensures
            r.nodes@.len() == 0,
            r.inputs_pool@.len() == 0,
            r.meta@.len() == 0,
            r.subgraphs@.len() == 0,
            r.entry_subgraph is None,
            r.vtable_fallback_dispatch@.len() == 0,
            r.sg_debug_names@.len() == 0,
            r.string_pool@.len() == 0,
            r.ir_errors@.len() == 0,
            r.downstreams@.len() == 0,
            r.downstream_csr_offsets@.len() == 0,
            r.downstream_csr_flat@.len() == 0,
            r.linear_plans@.len() == 0,
            r.sg_initial_pending@.len() == 0,
            r.sg_initial_seed@.len() == 0,
            r.wf(),
            r.dispatch_wf(),
    {
        DataFlowGraph::new()
    }
}


/// The compute functions of the graph that common subexpressions, invariants
/// and dead nodes may be made of. Reads that share storage with a write are
/// among them: the edges of the graph keep the two in order.
pub fn graph_pure_set(_graph: &DataFlowGraph) -> (s: IdSet)
    ensures
        s@ == pure_ids(),
{
    pure_compute_fn_set()
}

/// The function of a node is the largest subgraph outside loops that holds it,
/// where there is one; a node in no subgraph has none.
pub proof fn law_functions_hold_their_nodes(g: &DataFlowGraph, node: NodeId, r: Option<SubGraphId>, s: int)
    requires
        g.function_sg_of(node, r),
    ensures
        0 <= s < g.subgraphs@.len() && g.subgraphs@[s].node_range.0.0 <= node.0 < g.subgraphs@[s].node_range.1.0
            && g.subgraphs@[s].loop_kind == LoopKind::NotLoop && g.subgraphs@[s].loop_parent_sg is None ==> {
            let b = g.subgraphs@[(r->0).0 as int];
            &&& r is Some && (r->0).0 < g.subgraphs@.len()
            &&& b.node_range.0.0 <= node.0 < b.node_range.1.0
            &&& b.loop_kind == LoopKind::NotLoop && b.loop_parent_sg is None
            &&& range_size(b.node_range) >= range_size(g.subgraphs@[s].node_range)
        },
        r matches Some(f) ==> f.0 < g.subgraphs@.len() && g.subgraphs@[f.0 as int].node_range.0.0 <= node.0
            < g.subgraphs@[f.0 as int].node_range.1.0,
        r is None && 0 <= s < g.subgraphs@.len() ==> !(g.subgraphs@[s].node_range.0.0 <= node.0
            < g.subgraphs@[s].node_range.1.0),
{
    let outer = g.holds_outside_loops(node);
    let any = g.holds(node);
    if 0 <= s < g.subgraphs@.len() && in_range(g.subgraphs@[s].node_range, node.0 as int) {
        assert(any(s));
        if outside_loops(g.subgraphs@[s]) {
            assert(outer(s));
        }
    }
    if exists|i: int| 0 <= i < g.subgraphs@.len() && #[trigger] outer(i) {
        let i = choose|i: int| 0 <= i < g.subgraphs@.len() && #[trigger] outer(i);
        if let Some(f) = r {
            assert(outer(f.0 as int));
        }
    } else if let Some(f) = r {
        assert(any(f.0 as int));
    }
}

} // verus!
