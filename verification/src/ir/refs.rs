//! The reference door: the single enumeration of the node ids that the graph
//! stores outside the input pool.
//!
//! Liveness seeding, preserve propagation and remapping all read this list,
//! so that none of them can miss a reference that another one knows.

use std::sync::Arc;

use vstd::prelude::*;

use crate::ir::graph::DataFlowGraph;
use crate::ir::meta::NodeMeta;
use crate::ir::meta_eq::{same_gate, same_select};
use crate::ir::snapshot::{same_defer, same_subgraph};
use crate::ir::types::{
    DeferEntry, EventSourceDecl, GateBranch, GateBranches, NodeId, NodeRefSite, ResetPlan,
    SelectBranch, SelectInfo, SubGraph,
};

verus! {

// ---- enumeration -----------------------------------------------------------

/// The id, if there is one.
pub open spec fn opt_ref(o: Option<NodeId>) -> Seq<NodeId> {
    match o {
        None => Seq::empty(),
        Some(id) => seq![id],
    }
}

/// The parameters of all branches, in order.
pub open spec fn branch_refs(bs: Seq<GateBranch>) -> Seq<NodeId>
    decreases bs.len(),
{
    if bs.len() == 0 {
        Seq::empty()
    } else {
        branch_refs(bs.drop_last()) + bs.last().params@
    }
}

/// Condition and branch parameters of a gate.
pub open spec fn gate_refs(o: Option<Arc<GateBranches>>) -> Seq<NodeId> {
    match o {
        None => Seq::empty(),
        Some(gb) => seq![gb.condition_input] + branch_refs(gb.branches@),
    }
}

/// Event sources of a select gate.
pub open spec fn select_refs(o: Option<Arc<SelectInfo>>) -> Seq<NodeId> {
    match o {
        None => Seq::empty(),
        Some(si) => Seq::new(si.branches@.len(), |k: int| si.branches@[k].event_source_node),
    }
}

/// The node ids in one node's metadata: await source, writeback target, gate
/// condition and parameters, select sources.
pub open spec fn meta_refs(m: NodeMeta) -> Seq<NodeId> {
    opt_ref(m.await_event_source) + opt_ref(m.writeback_target) + gate_refs(m.gate_branches)
        + select_refs(m.select_info)
}

/// Registration points and captured nodes of the defer blocks, in order.
pub open spec fn defer_refs(es: Seq<DeferEntry>) -> Seq<NodeId>
    decreases es.len(),
{
    if es.len() == 0 {
        Seq::empty()
    } else {
        defer_refs(es.drop_last()) + seq![es.last().trigger_node] + es.last().captured_inputs@
    }
}

/// Declaration nodes of the event sources.
pub open spec fn decl_refs(ds: Seq<EventSourceDecl>) -> Seq<NodeId> {
    Seq::new(ds.len(), |k: int| ds[k].node)
}

/// Roots of the loop reset. The flattened condition tree is derived from them
/// and not part of the enumeration.
pub open spec fn plan_refs(p: Option<ResetPlan>) -> Seq<NodeId> {
    match p {
        None => Seq::empty(),
        Some(p) => p.reset_to_zero@ + p.reset_to_one@ + p.reset_condition_tree@,
    }
}

/// The node ids that anchor a subgraph.
pub open spec fn sg_refs(sg: SubGraph) -> Seq<NodeId> {
    seq![sg.entry_node, sg.return_node] + opt_ref(sg.cond_node) + opt_ref(sg.iter_next_node)
        + decl_refs(sg.event_source_decls@) + defer_refs(sg.defer_table@)
        + sg.upvalue_outer_nodes@ + plan_refs(sg.reset_plan)
}

/// References labelled with their site and owner.
pub open spec fn labelled(site: NodeRefSite, owner: int, ids: Seq<NodeId>) -> Seq<
    (NodeRefSite, u32, NodeId),
> {
    Seq::new(ids.len(), |k: int| (site, owner as u32, ids[k]))
}

/// References of the first `n` nodes.
pub open spec fn all_meta_refs(ms: Seq<NodeMeta>, n: int) -> Seq<(NodeRefSite, u32, NodeId)>
    decreases n,
{
    if n <= 0 {
        Seq::empty()
    } else {
        all_meta_refs(ms, n - 1) + labelled(NodeRefSite::NodeMeta, n - 1, meta_refs(ms[n - 1]))
    }
}

/// References of the first `n` subgraphs.
pub open spec fn all_sg_refs(sgs: Seq<SubGraph>, n: int) -> Seq<(NodeRefSite, u32, NodeId)>
    decreases n,
{
    if n <= 0 {
        Seq::empty()
    } else {
        all_sg_refs(sgs, n - 1) + labelled(NodeRefSite::SgAnchor, n - 1, sg_refs(sgs[n - 1]))
    }
}

fn push_all(ids: &Vec<NodeId>, out: &mut Vec<NodeId>)
    ensures
        final(out)@ == old(out)@ + ids@,
{
    let mut i: usize = 0;
    while i < ids.len()
        invariant
            i <= ids.len(),
            out@ == old(out)@ + ids@.take(i as int),
        decreases ids.len() - i,
    {
        out.push(ids[i]);
        assert(ids@.take(i + 1) =~= ids@.take(i as int).push(ids@[i as int]));
        i = i + 1;
    }
    assert(ids@.take(ids@.len() as int) =~= ids@);
}

/// Lists the id, where there is one.
pub(crate) fn push_opt(o: Option<NodeId>, out: &mut Vec<NodeId>)
    ensures
        final(out)@ == old(out)@ + opt_ref(o),
{
    if let Some(id) = o {
        out.push(id);
    }
    assert(out@ =~= old(out)@ + opt_ref(o));
}

/// Lists the condition and the parameters of a branching node.
pub(crate) fn push_gate(o: &Option<Arc<GateBranches>>, out: &mut Vec<NodeId>)
    ensures
        final(out)@ == old(out)@ + gate_refs(*o),
{
    if let Some(gb) = o {
        out.push(gb.condition_input);
        let mut i: usize = 0;
        while i < gb.branches.len()
            invariant
                i <= gb.branches.len(),
                out@ == old(out)@ + (seq![gb.condition_input] + branch_refs(
                    gb.branches@.take(i as int),
                )),
            decreases gb.branches.len() - i,
        {
            push_all(&gb.branches[i].params, out);
            assert(gb.branches@.take(i + 1).drop_last() =~= gb.branches@.take(i as int));
            assert(out@ =~= old(out)@ + (seq![gb.condition_input] + branch_refs(
                gb.branches@.take(i + 1),
            )));
            i = i + 1;
        }
        assert(gb.branches@.take(gb.branches@.len() as int) =~= gb.branches@);
    }
    assert(out@ =~= old(out)@ + gate_refs(*o));
}

/// Lists the event sources of a select node.
pub(crate) fn push_select(o: &Option<Arc<SelectInfo>>, out: &mut Vec<NodeId>)
    ensures
        final(out)@ == old(out)@ + select_refs(*o),
{
    if let Some(si) = o {
        let mut i: usize = 0;
        while i < si.branches.len()
            invariant
                i <= si.branches.len(),
                *o == Some(*si),
                out@ == old(out)@ + select_refs(*o).take(i as int),
            decreases si.branches.len() - i,
        {
            out.push(si.branches[i].event_source_node);
            assert(select_refs(*o).take(i + 1) =~= select_refs(*o).take(i as int).push(
                select_refs(*o)[i as int],
            ));
            i = i + 1;
        }
        assert(select_refs(*o).take(si.branches@.len() as int) =~= select_refs(*o));
    }
    assert(out@ =~= old(out)@ + select_refs(*o));
}

/// Lists what the defer blocks refer to.
pub(crate) fn push_defers(es: &Vec<DeferEntry>, out: &mut Vec<NodeId>)
    ensures
        final(out)@ == old(out)@ + defer_refs(es@),
{
    let mut i: usize = 0;
    while i < es.len()
        invariant
            i <= es.len(),
            out@ == old(out)@ + defer_refs(es@.take(i as int)),
        decreases es.len() - i,
    {
        out.push(es[i].trigger_node);
        push_all(&es[i].captured_inputs, out);
        assert(es@.take(i + 1).drop_last() =~= es@.take(i as int));
        assert(out@ =~= old(out)@ + defer_refs(es@.take(i + 1)));
        i = i + 1;
    }
    assert(es@.take(es@.len() as int) =~= es@);
}

/// Lists the nodes of the event sources.
pub(crate) fn push_decls(ds: &Vec<EventSourceDecl>, out: &mut Vec<NodeId>)
    ensures
        final(out)@ == old(out)@ + decl_refs(ds@),
{
    let mut i: usize = 0;
    while i < ds.len()
        invariant
            i <= ds.len(),
            out@ == old(out)@ + decl_refs(ds@).take(i as int),
        decreases ds.len() - i,
    {
        out.push(ds[i].node);
        assert(decl_refs(ds@).take(i + 1) =~= decl_refs(ds@).take(i as int).push(
            decl_refs(ds@)[i as int],
        ));
        i = i + 1;
    }
    assert(decl_refs(ds@).take(ds@.len() as int) =~= decl_refs(ds@));
}

impl DataFlowGraph {
    /// Appends the node ids in the metadata of node `idx`; inputs are not
    /// among them.
    pub fn node_meta_refs(&self, idx: usize, out: &mut Vec<NodeId>)
        ensures
            idx < self.meta@.len() ==> final(out)@ == old(out)@ + meta_refs(self.meta@[idx as int]),
            idx >= self.meta@.len() ==> final(out)@ == old(out)@,
    {
        if idx >= self.meta.len() {
            return;
        }
        let m = &self.meta[idx];
        push_opt(m.await_event_source, out);
        push_opt(m.writeback_target, out);
        push_gate(&m.gate_branches, out);
        push_select(&m.select_info, out);
        assert(out@ =~= old(out)@ + meta_refs(*m));
    }

    /// Appends the node ids that anchor subgraph `si`.
    pub fn sg_anchor_refs(&self, si: usize, out: &mut Vec<NodeId>)
        requires
            si < self.subgraphs@.len(),
        ensures
            final(out)@ == old(out)@ + sg_refs(self.subgraphs@[si as int]),
    {
        let sg = &self.subgraphs[si];
        out.push(sg.entry_node);
        out.push(sg.return_node);
        push_opt(sg.cond_node, out);
        push_opt(sg.iter_next_node, out);
        push_decls(&sg.event_source_decls, out);
        push_defers(&sg.defer_table, out);
        push_all(&sg.upvalue_outer_nodes, out);
        if let Some(plan) = &sg.reset_plan {
            push_all(&plan.reset_to_zero, out);
            push_all(&plan.reset_to_one, out);
            push_all(&plan.reset_condition_tree, out);
        }
        assert(out@ =~= old(out)@ + sg_refs(*sg));
    }

    /// Every reference of the door: those of the nodes, then those of the
    /// subgraphs.
    pub open spec fn door_refs(&self) -> Seq<(NodeRefSite, u32, NodeId)> {
        all_meta_refs(self.meta@, self.nodes@.len() as int) + all_sg_refs(
            self.subgraphs@,
            self.subgraphs@.len() as int,
        )
    }

    /// Read door: appends every reference with its site and owner.
    pub fn for_each_node_ref(&self, out: &mut Vec<(NodeRefSite, u32, NodeId)>)
        requires
            self.meta@.len() == self.nodes@.len(),
        ensures
            final(out)@ == old(out)@ + self.door_refs(),
    {
        let mut i: usize = 0;
        while i < self.nodes.len()
            invariant
                self.meta@.len() == self.nodes@.len(),
                i <= self.nodes@.len(),
                out@ == old(out)@ + all_meta_refs(self.meta@, i as int),
            decreases self.nodes.len() - i,
        {
            let mut ids: Vec<NodeId> = Vec::new();
            self.node_meta_refs(i, &mut ids);
            assert(ids@ =~= meta_refs(self.meta@[i as int]));
            push_labelled(NodeRefSite::NodeMeta, i as u32, &ids, out);
            assert(labelled(NodeRefSite::NodeMeta, i as u32 as int, ids@) =~= labelled(
                NodeRefSite::NodeMeta,
                i as int,
                ids@,
            ));
            assert(out@ =~= old(out)@ + all_meta_refs(self.meta@, i + 1));
            i = i + 1;
        }
        let mut s: usize = 0;
        while s < self.subgraphs.len()
            invariant
                s <= self.subgraphs@.len(),
                out@ == old(out)@ + all_meta_refs(self.meta@, self.nodes@.len() as int)
                    + all_sg_refs(self.subgraphs@, s as int),
            decreases self.subgraphs.len() - s,
        {
            let mut ids: Vec<NodeId> = Vec::new();
            self.sg_anchor_refs(s, &mut ids);
            assert(ids@ =~= sg_refs(self.subgraphs@[s as int]));
            push_labelled(NodeRefSite::SgAnchor, s as u32, &ids, out);
            assert(labelled(NodeRefSite::SgAnchor, s as u32 as int, ids@) =~= labelled(
                NodeRefSite::SgAnchor,
                s as int,
                ids@,
            ));
            assert(out@ =~= old(out)@ + all_meta_refs(self.meta@, self.nodes@.len() as int)
                + all_sg_refs(self.subgraphs@, s + 1));
            s = s + 1;
        }
        assert(out@ =~= old(out)@ + self.door_refs());
    }
}

fn push_labelled(
    site: NodeRefSite,
    owner: u32,
    ids: &Vec<NodeId>,
    out: &mut Vec<(NodeRefSite, u32, NodeId)>,
)
    ensures
        final(out)@ == old(out)@ + labelled(site, owner as int, ids@),
{
    let mut i: usize = 0;
    while i < ids.len()
        invariant
            i <= ids.len(),
            out@ == old(out)@ + labelled(site, owner as int, ids@).take(i as int),
        decreases ids.len() - i,
    {
        out.push((site, owner, ids[i]));
        assert(labelled(site, owner as int, ids@).take(i + 1) =~= labelled(
            site,
            owner as int,
            ids@,
        ).take(i as int).push((site, owner, ids@[i as int])));
        i = i + 1;
    }
    assert(labelled(site, owner as int, ids@).take(ids@.len() as int) =~= labelled(
        site,
        owner as int,
        ids@,
    ));
}

// ---- remapping -------------------------------------------------------------

/// The ids are in the table's domain.
pub open spec fn all_below(ids: Seq<NodeId>, n: int) -> bool {
    forall|k: int| 0 <= k < ids.len() ==> (#[trigger] ids[k]).0 < n
}

/// Image of an id sequence under a table.
pub open spec fn ids_image(map: Seq<NodeId>, ids: Seq<NodeId>) -> Seq<NodeId> {
    Seq::new(ids.len(), |k: int| map[ids[k].0 as int])
}

/// Each id of `b` stands for the one of `a` at the same place.
pub open spec fn ids_related(a: Seq<NodeId>, b: Seq<NodeId>, rel: spec_fn(NodeId, NodeId) -> bool) -> bool {
    a.len() == b.len() && forall|k: int| 0 <= k < a.len() ==> rel(#[trigger] a[k], b[k])
}

/// `b` stands for the optional id `a`.
pub open spec fn opt_related(a: Option<NodeId>, b: Option<NodeId>, rel: spec_fn(NodeId, NodeId) -> bool) -> bool {
    match (a, b) {
        (None, None) => true,
        (Some(x), Some(y)) => rel(x, y),
        _ => false,
    }
}

/// `b` is the branch `a` with its parameters replaced.
pub open spec fn branch_related(a: GateBranch, b: GateBranch, rel: spec_fn(NodeId, NodeId) -> bool) -> bool {
    b.when == a.when && b.subgraph == a.subgraph && ids_related(a.params@, b.params@, rel)
}

/// `b` is gate node `a` with its node ids replaced.
pub open spec fn gate_related(
    a: Option<Arc<GateBranches>>,
    b: Option<Arc<GateBranches>>,
    rel: spec_fn(NodeId, NodeId) -> bool,
) -> bool {
    match (a, b) {
        (None, None) => true,
        (Some(x), Some(y)) => {
            &&& rel(x.condition_input, y.condition_input)
            &&& y.capture == x.capture
            &&& y.branches@.len() == x.branches@.len()
            &&& forall|k: int|
                0 <= k < x.branches@.len() ==> branch_related(#[trigger] x.branches@[k], y.branches@[k], rel)
        },
        _ => false,
    }
}

/// `b` is the select branch `a` with its event source replaced.
pub open spec fn select_branch_related(
    a: SelectBranch,
    b: SelectBranch,
    rel: spec_fn(NodeId, NodeId) -> bool,
) -> bool {
    &&& b == SelectBranch { event_source_node: b.event_source_node, ..a }
    &&& rel(a.event_source_node, b.event_source_node)
}

/// `b` is the select info `a` with its node ids replaced.
pub open spec fn select_related(
    a: Option<Arc<SelectInfo>>,
    b: Option<Arc<SelectInfo>>,
    rel: spec_fn(NodeId, NodeId) -> bool,
) -> bool {
    match (a, b) {
        (None, None) => true,
        (Some(x), Some(y)) => {
            &&& y.branches@.len() == x.branches@.len()
            &&& forall|k: int|
                0 <= k < x.branches@.len() ==> select_branch_related(#[trigger] x.branches@[k], y.branches@[k], rel)
        },
        _ => false,
    }
}

/// `b` is the metadata `a` with its node ids replaced, and nothing else
/// changed.
pub open spec fn meta_related(a: NodeMeta, b: NodeMeta, rel: spec_fn(NodeId, NodeId) -> bool) -> bool {
    &&& b == NodeMeta {
        await_event_source: b.await_event_source,
        writeback_target: b.writeback_target,
        gate_branches: b.gate_branches,
        select_info: b.select_info,
        ..a
    }
    &&& opt_related(a.await_event_source, b.await_event_source, rel)
    &&& opt_related(a.writeback_target, b.writeback_target, rel)
    &&& gate_related(a.gate_branches, b.gate_branches, rel)
    &&& select_related(a.select_info, b.select_info, rel)
}

/// `b` is the event source `a` with its node replaced.
pub open spec fn decl_related(a: EventSourceDecl, b: EventSourceDecl, rel: spec_fn(NodeId, NodeId) -> bool) -> bool {
    b.kind == a.kind && rel(a.node, b.node)
}

/// `b` is the defer entry `a` with its node ids replaced.
pub open spec fn defer_related(a: DeferEntry, b: DeferEntry, rel: spec_fn(NodeId, NodeId) -> bool) -> bool {
    &&& rel(a.trigger_node, b.trigger_node)
    &&& ids_related(a.captured_inputs@, b.captured_inputs@, rel)
    &&& b.body_subgraph == a.body_subgraph
    &&& b.registered == a.registered
}

/// `b` is the reset plan `a` with its roots replaced.
pub open spec fn plan_related(
    a: Option<ResetPlan>,
    b: Option<ResetPlan>,
    rel: spec_fn(NodeId, NodeId) -> bool,
) -> bool {
    match (a, b) {
        (None, None) => true,
        (Some(x), Some(y)) => {
            &&& ids_related(x.reset_to_zero@, y.reset_to_zero@, rel)
            &&& ids_related(x.reset_to_one@, y.reset_to_one@, rel)
            &&& ids_related(x.reset_condition_tree@, y.reset_condition_tree@, rel)
            &&& y.condition_tree_plan == x.condition_tree_plan
        },
        _ => false,
    }
}

/// `b` is the subgraph `a` with its anchors replaced, and nothing else changed.
pub open spec fn sg_related(a: SubGraph, b: SubGraph, rel: spec_fn(NodeId, NodeId) -> bool) -> bool {
    &&& b == SubGraph {
        entry_node: b.entry_node,
        return_node: b.return_node,
        cond_node: b.cond_node,
        iter_next_node: b.iter_next_node,
        event_source_decls: b.event_source_decls,
        defer_table: b.defer_table,
        upvalue_outer_nodes: b.upvalue_outer_nodes,
        reset_plan: b.reset_plan,
        ..a
    }
    &&& rel(a.entry_node, b.entry_node)
    &&& rel(a.return_node, b.return_node)
    &&& opt_related(a.cond_node, b.cond_node, rel)
    &&& opt_related(a.iter_next_node, b.iter_next_node, rel)
    &&& b.event_source_decls@.len() == a.event_source_decls@.len()
    &&& forall|k: int|
        0 <= k < a.event_source_decls@.len() ==> decl_related(
            #[trigger] a.event_source_decls@[k],
            b.event_source_decls@[k],
            rel,
        )
    &&& b.defer_table@.len() == a.defer_table@.len()
    &&& forall|k: int|
        0 <= k < a.defer_table@.len() ==> defer_related(#[trigger] a.defer_table@[k], b.defer_table@[k], rel)
    &&& ids_related(a.upvalue_outer_nodes@, b.upvalue_outer_nodes@, rel)
    &&& plan_related(a.reset_plan, b.reset_plan, rel)
}

/// An id stands for another where the table says so.
pub open spec fn by_table(map: Seq<NodeId>) -> spec_fn(NodeId, NodeId) -> bool {
    |x: NodeId, y: NodeId| y == map[x.0 as int]
}

/// `b` is the metadata `a` with its node ids mapped, and nothing else changed.
pub open spec fn meta_mapped(a: NodeMeta, b: NodeMeta, map: Seq<NodeId>) -> bool {
    meta_related(a, b, by_table(map))
}

/// `b` is the subgraph `a` with its anchors mapped, and nothing else changed.
pub open spec fn sg_mapped(a: SubGraph, b: SubGraph, map: Seq<NodeId>) -> bool {
    sg_related(a, b, by_table(map))
}

/// The function takes all of the ids, as references of that site and owner.
pub open spec fn accepts<F: Fn(NodeRefSite, u32, NodeId) -> NodeId>(
    f: F,
    site: NodeRefSite,
    owner: u32,
    ids: Seq<NodeId>,
) -> bool {
    forall|k: int| 0 <= k < ids.len() ==> f.requires((site, owner, #[trigger] ids[k]))
}

/// An id stands for another where the function may answer so for a reference of
/// that site and owner.
pub open spec fn answers<F: Fn(NodeRefSite, u32, NodeId) -> NodeId>(
    f: F,
    site: NodeRefSite,
    owner: u32,
) -> spec_fn(NodeId, NodeId) -> bool {
    |x: NodeId, y: NodeId| f.ensures((site, owner, x), y)
}

fn map_ids<F: Fn(NodeRefSite, u32, NodeId) -> NodeId>(ids: &Vec<NodeId>, f: &F, site: NodeRefSite, owner: u32) -> (r:
    Vec<NodeId>)
    requires
        accepts(*f, site, owner, ids@),
    ensures
        ids_related(ids@, r@, answers(*f, site, owner)),
{
    let mut r: Vec<NodeId> = Vec::new();
    let mut i: usize = 0;
    while i < ids.len()
        invariant
            i <= ids.len(),
            accepts(*f, site, owner, ids@),
            r@.len() == i,
            forall|k: int| 0 <= k < i ==> answers(*f, site, owner)(#[trigger] ids@[k], r@[k]),
        decreases ids.len() - i,
    {
        let id = ids[i];
        assert(f.requires((site, owner, ids@[i as int])));
        r.push(f(site, owner, id));
        i = i + 1;
    }
    r
}

fn map_opt<F: Fn(NodeRefSite, u32, NodeId) -> NodeId>(o: Option<NodeId>, f: &F, site: NodeRefSite, owner: u32) -> (r:
    Option<NodeId>)
    requires
        accepts(*f, site, owner, opt_ref(o)),
    ensures
        opt_related(o, r, answers(*f, site, owner)),
{
    match o {
        None => None,
        Some(id) => {
            assert(f.requires((site, owner, opt_ref(o)[0])));
            Some(f(site, owner, id))
        },
    }
}

proof fn lemma_branch_refs_cover<F: Fn(NodeRefSite, u32, NodeId) -> NodeId>(
    f: F,
    site: NodeRefSite,
    owner: u32,
    bs: Seq<GateBranch>,
    k: int,
)
    requires
        0 <= k < bs.len(),
        accepts(f, site, owner, branch_refs(bs)),
    ensures
        accepts(f, site, owner, bs[k].params@),
    decreases bs.len(),
{
    lemma_accept_parts(f, site, owner, branch_refs(bs.drop_last()), bs.last().params@);
    if k < bs.len() - 1 {
        lemma_branch_refs_cover(f, site, owner, bs.drop_last(), k);
    }
}

proof fn lemma_defer_refs_cover<F: Fn(NodeRefSite, u32, NodeId) -> NodeId>(
    f: F,
    site: NodeRefSite,
    owner: u32,
    es: Seq<DeferEntry>,
    k: int,
)
    requires
        0 <= k < es.len(),
        accepts(f, site, owner, defer_refs(es)),
    ensures
        f.requires((site, owner, es[k].trigger_node)),
        accepts(f, site, owner, es[k].captured_inputs@),
    decreases es.len(),
{
    let head = defer_refs(es.drop_last());
    let t = seq![es.last().trigger_node];
    lemma_accept_parts(f, site, owner, head + t, es.last().captured_inputs@);
    lemma_accept_parts(f, site, owner, head, t);
    assert(f.requires((site, owner, t[0])));
    if k < es.len() - 1 {
        lemma_defer_refs_cover(f, site, owner, es.drop_last(), k);
    }
}

/// What takes a list takes each half of it.
proof fn lemma_accept_parts<F: Fn(NodeRefSite, u32, NodeId) -> NodeId>(
    f: F,
    site: NodeRefSite,
    owner: u32,
    a: Seq<NodeId>,
    b: Seq<NodeId>,
)
    requires
        accepts(f, site, owner, a + b),
    ensures
        accepts(f, site, owner, a),
        accepts(f, site, owner, b),
{
    assert forall|j: int| 0 <= j < a.len() implies f.requires((site, owner, #[trigger] a[j])) by {
        assert((a + b)[j] == a[j]);
    }
    assert forall|j: int| 0 <= j < b.len() implies f.requires((site, owner, #[trigger] b[j])) by {
        assert((a + b)[a.len() + j] == b[j]);
    }
}

fn map_gate<F: Fn(NodeRefSite, u32, NodeId) -> NodeId>(
    o: &Option<Arc<GateBranches>>,
    f: &F,
    site: NodeRefSite,
    owner: u32,
) -> (r: Option<Arc<GateBranches>>)
    requires
        accepts(*f, site, owner, gate_refs(*o)),
    ensures
        gate_related(*o, r, answers(*f, site, owner)),
{
    match o {
        None => None,
        Some(gb) => {
            proof {
                lemma_accept_parts(*f, site, owner, seq![gb.condition_input], branch_refs(gb.branches@));
                assert(f.requires((site, owner, seq![gb.condition_input][0])));
            }
            let condition_input = f(site, owner, gb.condition_input);
            let mut branches: Vec<GateBranch> = Vec::new();
            let mut i: usize = 0;
            while i < gb.branches.len()
                invariant
                    i <= gb.branches.len(),
                    accepts(*f, site, owner, branch_refs(gb.branches@)),
                    branches@.len() == i,
                    forall|k: int|
                        0 <= k < i ==> branch_related(
                            #[trigger] gb.branches@[k],
                            branches@[k],
                            answers(*f, site, owner),
                        ),
                decreases gb.branches.len() - i,
            {
                proof {
                    lemma_branch_refs_cover(*f, site, owner, gb.branches@, i as int);
                }
                let b = &gb.branches[i];
                branches.push(
                    GateBranch {
                        when: b.when,
                        subgraph: b.subgraph,
                        params: map_ids(&b.params, f, site, owner),
                    },
                );
                i = i + 1;
            }
            let mapped = GateBranches { condition_input, branches, capture: gb.capture };
            Some(Arc::new(mapped))
        },
    }
}

fn map_select<F: Fn(NodeRefSite, u32, NodeId) -> NodeId>(
    o: &Option<Arc<SelectInfo>>,
    f: &F,
    site: NodeRefSite,
    owner: u32,
) -> (r: Option<Arc<SelectInfo>>)
    requires
        accepts(*f, site, owner, select_refs(*o)),
    ensures
        select_related(*o, r, answers(*f, site, owner)),
{
    match o {
        None => None,
        Some(si) => {
            let mut branches: Vec<SelectBranch> = Vec::new();
            let mut i: usize = 0;
            while i < si.branches.len()
                invariant
                    i <= si.branches.len(),
                    *o == Some(*si),
                    accepts(*f, site, owner, select_refs(*o)),
                    branches@.len() == i,
                    forall|k: int|
                        0 <= k < i ==> select_branch_related(
                            #[trigger] si.branches@[k],
                            branches@[k],
                            answers(*f, site, owner),
                        ),
                decreases si.branches.len() - i,
            {
                let b = si.branches[i];
                assert(f.requires((site, owner, select_refs(*o)[i as int])));
                branches.push(
                    SelectBranch {
                        subgraph_id: b.subgraph_id,
                        event_kind: b.event_kind,
                        event_source_node: f(site, owner, b.event_source_node),
                    },
                );
                i = i + 1;
            }
            Some(Arc::new(SelectInfo { branches }))
        },
    }
}

fn map_meta<F: Fn(NodeRefSite, u32, NodeId) -> NodeId>(m: &NodeMeta, f: &F, owner: u32) -> (r: NodeMeta)
    requires
        accepts(*f, NodeRefSite::NodeMeta, owner, meta_refs(*m)),
    ensures
        meta_related(*m, r, answers(*f, NodeRefSite::NodeMeta, owner)),
{
    let site = NodeRefSite::NodeMeta;
    proof {
        let a = opt_ref(m.await_event_source);
        let b = opt_ref(m.writeback_target);
        let c = gate_refs(m.gate_branches);
        let d = select_refs(m.select_info);
        lemma_accept_parts(*f, site, owner, a + b + c, d);
        lemma_accept_parts(*f, site, owner, a + b, c);
        lemma_accept_parts(*f, site, owner, a, b);
    }
    let mut r = m.clone();
    r.await_event_source = map_opt(m.await_event_source, f, site, owner);
    r.writeback_target = map_opt(m.writeback_target, f, site, owner);
    r.gate_branches = map_gate(&m.gate_branches, f, site, owner);
    r.select_info = map_select(&m.select_info, f, site, owner);
    r
}

fn map_decls<F: Fn(NodeRefSite, u32, NodeId) -> NodeId>(
    ds: &Vec<EventSourceDecl>,
    f: &F,
    site: NodeRefSite,
    owner: u32,
) -> (r: Vec<EventSourceDecl>)
    requires
        accepts(*f, site, owner, decl_refs(ds@)),
    ensures
        r@.len() == ds@.len(),
        forall|k: int|
            0 <= k < ds@.len() ==> decl_related(#[trigger] ds@[k], r@[k], answers(*f, site, owner)),
{
    let mut r: Vec<EventSourceDecl> = Vec::new();
    let mut i: usize = 0;
    while i < ds.len()
        invariant
            i <= ds.len(),
            accepts(*f, site, owner, decl_refs(ds@)),
            r@.len() == i,
            forall|k: int| 0 <= k < i ==> decl_related(#[trigger] ds@[k], r@[k], answers(*f, site, owner)),
        decreases ds.len() - i,
    {
        assert(f.requires((site, owner, decl_refs(ds@)[i as int])));
        r.push(EventSourceDecl { node: f(site, owner, ds[i].node), kind: ds[i].kind });
        i = i + 1;
    }
    r
}

fn map_defers<F: Fn(NodeRefSite, u32, NodeId) -> NodeId>(
    es: &Vec<DeferEntry>,
    f: &F,
    site: NodeRefSite,
    owner: u32,
) -> (r: Vec<DeferEntry>)
    requires
        accepts(*f, site, owner, defer_refs(es@)),
    ensures
        r@.len() == es@.len(),
        forall|k: int|
            0 <= k < es@.len() ==> defer_related(#[trigger] es@[k], r@[k], answers(*f, site, owner)),
{
    let mut r: Vec<DeferEntry> = Vec::new();
    let mut i: usize = 0;
    while i < es.len()
        invariant
            i <= es.len(),
            accepts(*f, site, owner, defer_refs(es@)),
            r@.len() == i,
            forall|k: int| 0 <= k < i ==> defer_related(#[trigger] es@[k], r@[k], answers(*f, site, owner)),
        decreases es.len() - i,
    {
        proof {
            lemma_defer_refs_cover(*f, site, owner, es@, i as int);
        }
        let e = &es[i];
        let trigger_node = f(site, owner, e.trigger_node);
        r.push(
            DeferEntry {
                trigger_node,
                body_subgraph: e.body_subgraph,
                captured_inputs: map_ids(&e.captured_inputs, f, site, owner),
                registered: e.registered,
            },
        );
        i = i + 1;
    }
    r
}

/// Replaces the anchors of one subgraph in place.
fn map_sg<F: Fn(NodeRefSite, u32, NodeId) -> NodeId>(sg: &mut SubGraph, f: &F, owner: u32)
    requires
        accepts(*f, NodeRefSite::SgAnchor, owner, sg_refs(*old(sg))),
    ensures
        sg_related(*old(sg), *final(sg), answers(*f, NodeRefSite::SgAnchor, owner)),
{
    let site = NodeRefSite::SgAnchor;
    proof {
        let s = *sg;
        let a = seq![s.entry_node, s.return_node];
        let b = opt_ref(s.cond_node);
        let c = opt_ref(s.iter_next_node);
        let d = decl_refs(s.event_source_decls@);
        let e = defer_refs(s.defer_table@);
        let u = s.upvalue_outer_nodes@;
        let g = plan_refs(s.reset_plan);
        lemma_accept_parts(*f, site, owner, a + b + c + d + e + u, g);
        lemma_accept_parts(*f, site, owner, a + b + c + d + e, u);
        lemma_accept_parts(*f, site, owner, a + b + c + d, e);
        lemma_accept_parts(*f, site, owner, a + b + c, d);
        lemma_accept_parts(*f, site, owner, a + b, c);
        lemma_accept_parts(*f, site, owner, a, b);
        assert(f.requires((site, owner, a[0])));
        assert(f.requires((site, owner, a[1])));
        if let Some(p) = s.reset_plan {
            lemma_accept_parts(*f, site, owner, p.reset_to_zero@ + p.reset_to_one@, p.reset_condition_tree@);
            lemma_accept_parts(*f, site, owner, p.reset_to_zero@, p.reset_to_one@);
        }
    }
    sg.entry_node = f(site, owner, sg.entry_node);
    sg.return_node = f(site, owner, sg.return_node);
    sg.cond_node = map_opt(sg.cond_node, f, site, owner);
    sg.iter_next_node = map_opt(sg.iter_next_node, f, site, owner);
    sg.event_source_decls = map_decls(&sg.event_source_decls, f, site, owner);
    sg.defer_table = map_defers(&sg.defer_table, f, site, owner);
    sg.upvalue_outer_nodes = map_ids(&sg.upvalue_outer_nodes, f, site, owner);
    let mut plan: Option<ResetPlan> = None;
    core::mem::swap(&mut sg.reset_plan, &mut plan);
    if let Some(p) = plan {
        sg.reset_plan = Some(
            ResetPlan {
                reset_to_zero: map_ids(&p.reset_to_zero, f, site, owner),
                reset_to_one: map_ids(&p.reset_to_one, f, site, owner),
                reset_condition_tree: map_ids(&p.reset_condition_tree, f, site, owner),
                condition_tree_plan: p.condition_tree_plan,
            },
        );
    }
}

/// The second list has the sites and owners of the first, and for each id an
/// answer of the function.
pub open spec fn door_images<F: Fn(NodeRefSite, u32, NodeId) -> NodeId>(
    f: F,
    a: Seq<(NodeRefSite, u32, NodeId)>,
    b: Seq<(NodeRefSite, u32, NodeId)>,
) -> bool {
    &&& a.len() == b.len()
    &&& forall|k: int|
        0 <= k < a.len() ==> (#[trigger] b[k]).0 == a[k].0 && b[k].1 == a[k].1 && f.ensures(
            (a[k].0, a[k].1, a[k].2),
            b[k].2,
        )
}

impl DataFlowGraph {
    /// Every reference of the door is in the table's domain.
    pub open spec fn door_below(&self, n: int) -> bool {
        &&& forall|i: int|
            0 <= i < self.meta@.len() ==> all_below(#[trigger] meta_refs(self.meta@[i]), n)
        &&& forall|s: int|
            0 <= s < self.subgraphs@.len() ==> all_below(#[trigger] sg_refs(self.subgraphs@[s]), n)
    }

    /// The function takes every reference of the door.
    pub open spec fn door_accepted<F: Fn(NodeRefSite, u32, NodeId) -> NodeId>(&self, f: F) -> bool {
        &&& forall|i: int|
            0 <= i < self.meta@.len() ==> accepts(
                f,
                NodeRefSite::NodeMeta,
                i as u32,
                #[trigger] meta_refs(self.meta@[i]),
            )
        &&& forall|s: int|
            0 <= s < self.subgraphs@.len() ==> accepts(
                f,
                NodeRefSite::SgAnchor,
                s as u32,
                #[trigger] sg_refs(self.subgraphs@[s]),
            )
    }

    /// The other graph has the function's answers in place of this one's
    /// references, and is the same otherwise.
    pub open spec fn refs_replaced<F: Fn(NodeRefSite, u32, NodeId) -> NodeId>(&self, other: &Self, f: F) -> bool {
        &&& other.meta@.len() == self.meta@.len()
        &&& forall|i: int|
            0 <= i < self.meta@.len() ==> meta_related(
                #[trigger] self.meta@[i],
                other.meta@[i],
                answers(f, NodeRefSite::NodeMeta, i as u32),
            )
        &&& other.subgraphs@.len() == self.subgraphs@.len()
        &&& forall|s: int|
            0 <= s < self.subgraphs@.len() ==> sg_related(
                #[trigger] self.subgraphs@[s],
                other.subgraphs@[s],
                answers(f, NodeRefSite::SgAnchor, s as u32),
            )
        &&& *other == (DataFlowGraph { meta: other.meta, subgraphs: other.subgraphs, ..*self })
    }

    /// Write door: replaces every reference by what the function answers for
    /// its site, its owner and its id. The function is asked once for each, in
    /// the order of the read door.
    pub fn map_node_refs<F: Fn(NodeRefSite, u32, NodeId) -> NodeId>(&mut self, f: F)
        requires
            old(self).meta@.len() == old(self).nodes@.len(),
            old(self).door_accepted(f),
        ensures
            old(self).refs_replaced(final(self), f),
            door_images(f, old(self).door_refs(), final(self).door_refs()),
    {
        let mut i: usize = 0;
        while i < self.meta.len()
            invariant
                i <= self.meta@.len(),
                old(self).door_accepted(f),
                self.meta@.len() == old(self).meta@.len(),
                forall|k: int|
                    0 <= k < i ==> meta_related(
                        #[trigger] old(self).meta@[k],
                        self.meta@[k],
                        answers(f, NodeRefSite::NodeMeta, k as u32),
                    ),
                forall|k: int| i <= k < self.meta@.len() ==> self.meta@[k] == old(self).meta@[k],
                *self == (DataFlowGraph { meta: self.meta, ..*old(self) }),
            decreases self.meta.len() - i,
        {
            assert(accepts(f, NodeRefSite::NodeMeta, i as u32, meta_refs(old(self).meta@[i as int])));
            let m = map_meta(&self.meta[i], &f, i as u32);
            self.meta.set(i, m);
            i = i + 1;
        }
        let mut s: usize = 0;
        while s < self.subgraphs.len()
            invariant
                s <= self.subgraphs@.len(),
                old(self).door_accepted(f),
                self.subgraphs@.len() == old(self).subgraphs@.len(),
                forall|k: int|
                    0 <= k < s ==> sg_related(
                        #[trigger] old(self).subgraphs@[k],
                        self.subgraphs@[k],
                        answers(f, NodeRefSite::SgAnchor, k as u32),
                    ),
                forall|k: int|
                    s <= k < self.subgraphs@.len() ==> self.subgraphs@[k]
                        == old(self).subgraphs@[k],
                self.meta@.len() == old(self).meta@.len(),
                forall|k: int|
                    0 <= k < old(self).meta@.len() ==> meta_related(
                        #[trigger] old(self).meta@[k],
                        self.meta@[k],
                        answers(f, NodeRefSite::NodeMeta, k as u32),
                    ),
                *self == (DataFlowGraph {
                    meta: self.meta,
                    subgraphs: self.subgraphs,
                    ..*old(self)
                }),
            decreases self.subgraphs.len() - s,
        {
            assert(accepts(f, NodeRefSite::SgAnchor, s as u32, sg_refs(old(self).subgraphs@[s as int])));
            map_sg(&mut self.subgraphs[s], &f, s as u32);
            s = s + 1;
        }
        proof {
            law_read_door_lists_the_answers(*old(self), *self, f);
        }
    }
}

// ---- laws ------------------------------------------------------------------

proof fn lemma_related_concat(
    a: Seq<NodeId>,
    b: Seq<NodeId>,
    c: Seq<NodeId>,
    d: Seq<NodeId>,
    rel: spec_fn(NodeId, NodeId) -> bool,
)
    requires
        ids_related(a, b, rel),
        ids_related(c, d, rel),
    ensures
        ids_related(a + c, b + d, rel),
{
    assert forall|k: int| 0 <= k < (a + c).len() implies rel(#[trigger] (a + c)[k], (b + d)[k]) by {
        if k < a.len() {
            assert(rel(a[k], b[k]));
        } else {
            assert(rel(c[k - a.len()], d[k - a.len()]));
        }
    }
}

proof fn lemma_branches_related(a: Seq<GateBranch>, b: Seq<GateBranch>, rel: spec_fn(NodeId, NodeId) -> bool)
    requires
        a.len() == b.len(),
        forall|k: int| 0 <= k < a.len() ==> branch_related(#[trigger] a[k], b[k], rel),
    ensures
        ids_related(branch_refs(a), branch_refs(b), rel),
    decreases a.len(),
{
    if a.len() > 0 {
        assert forall|k: int| 0 <= k < a.drop_last().len() implies branch_related(
            #[trigger] a.drop_last()[k],
            b.drop_last()[k],
            rel,
        ) by {
            assert(branch_related(a[k], b[k], rel));
        }
        lemma_branches_related(a.drop_last(), b.drop_last(), rel);
        assert(branch_related(a[a.len() - 1], b[b.len() - 1], rel));
        lemma_related_concat(
            branch_refs(a.drop_last()),
            branch_refs(b.drop_last()),
            a.last().params@,
            b.last().params@,
            rel,
        );
    }
}

proof fn lemma_defers_related(a: Seq<DeferEntry>, b: Seq<DeferEntry>, rel: spec_fn(NodeId, NodeId) -> bool)
    requires
        a.len() == b.len(),
        forall|k: int| 0 <= k < a.len() ==> defer_related(#[trigger] a[k], b[k], rel),
    ensures
        ids_related(defer_refs(a), defer_refs(b), rel),
    decreases a.len(),
{
    if a.len() > 0 {
        assert forall|k: int| 0 <= k < a.drop_last().len() implies defer_related(
            #[trigger] a.drop_last()[k],
            b.drop_last()[k],
            rel,
        ) by {
            assert(defer_related(a[k], b[k], rel));
        }
        let x = defer_refs(a.drop_last());
        let y = defer_refs(b.drop_last());
        lemma_defers_related(a.drop_last(), b.drop_last(), rel);
        assert(defer_related(a[a.len() - 1], b[b.len() - 1], rel));
        let t = seq![a.last().trigger_node];
        let u = seq![b.last().trigger_node];
        lemma_related_concat(x, y, t, u, rel);
        lemma_related_concat(x + t, y + u, a.last().captured_inputs@, b.last().captured_inputs@, rel);
    }
}

/// The write door touches exactly what the read door lists: after the node ids
/// of a node's metadata are replaced, the read door lists what stands for them,
/// in the same order.
pub proof fn law_doors_agree_on_metadata(a: NodeMeta, b: NodeMeta, rel: spec_fn(NodeId, NodeId) -> bool)
    requires
        meta_related(a, b, rel),
    ensures
        ids_related(meta_refs(a), meta_refs(b), rel),
{
    let (p, q) = (opt_ref(a.await_event_source), opt_ref(a.writeback_target));
    let (v, w) = (opt_ref(b.await_event_source), opt_ref(b.writeback_target));
    let (g, h) = (gate_refs(a.gate_branches), gate_refs(b.gate_branches));
    let (s, t) = (select_refs(a.select_info), select_refs(b.select_info));
    if let (Some(x), Some(y)) = (a.gate_branches, b.gate_branches) {
        lemma_branches_related(x.branches@, y.branches@, rel);
        lemma_related_concat(
            seq![x.condition_input],
            seq![y.condition_input],
            branch_refs(x.branches@),
            branch_refs(y.branches@),
            rel,
        );
    }
    assert(ids_related(g, h, rel));
    assert(ids_related(s, t, rel)) by {
        if let (Some(x), Some(y)) = (a.select_info, b.select_info) {
            assert forall|k: int| 0 <= k < s.len() implies rel(#[trigger] s[k], t[k]) by {
                assert(select_branch_related(x.branches@[k], y.branches@[k], rel));
            }
        }
    }
    lemma_related_concat(p, v, q, w, rel);
    lemma_related_concat(p + q, v + w, g, h, rel);
    lemma_related_concat(p + q + g, v + w + h, s, t, rel);
}

/// The same of a subgraph's anchors.
pub proof fn law_doors_agree_on_anchors(a: SubGraph, b: SubGraph, rel: spec_fn(NodeId, NodeId) -> bool)
    requires
        sg_related(a, b, rel),
    ensures
        ids_related(sg_refs(a), sg_refs(b), rel),
{
    let x = seq![a.entry_node, a.return_node];
    let y = seq![b.entry_node, b.return_node];
    let (c, c2) = (opt_ref(a.cond_node), opt_ref(b.cond_node));
    let (n, n2) = (opt_ref(a.iter_next_node), opt_ref(b.iter_next_node));
    let (d, d2) = (decl_refs(a.event_source_decls@), decl_refs(b.event_source_decls@));
    let (e, e2) = (defer_refs(a.defer_table@), defer_refs(b.defer_table@));
    let (u, u2) = (a.upvalue_outer_nodes@, b.upvalue_outer_nodes@);
    let (p, p2) = (plan_refs(a.reset_plan), plan_refs(b.reset_plan));
    assert(ids_related(x, y, rel));
    assert(ids_related(d, d2, rel)) by {
        assert forall|k: int| 0 <= k < d.len() implies rel(#[trigger] d[k], d2[k]) by {
            assert(decl_related(a.event_source_decls@[k], b.event_source_decls@[k], rel));
        }
    }
    lemma_defers_related(a.defer_table@, b.defer_table@, rel);
    if let (Some(q), Some(r)) = (a.reset_plan, b.reset_plan) {
        lemma_related_concat(q.reset_to_zero@, r.reset_to_zero@, q.reset_to_one@, r.reset_to_one@, rel);
        lemma_related_concat(
            q.reset_to_zero@ + q.reset_to_one@,
            r.reset_to_zero@ + r.reset_to_one@,
            q.reset_condition_tree@,
            r.reset_condition_tree@,
            rel,
        );
    }
    assert(ids_related(p, p2, rel));
    lemma_related_concat(x, y, c, c2, rel);
    lemma_related_concat(x + c, y + c2, n, n2, rel);
    lemma_related_concat(x + c + n, y + c2 + n2, d, d2, rel);
    lemma_related_concat(x + c + n + d, y + c2 + n2 + d2, e, e2, rel);
    lemma_related_concat(x + c + n + d + e, y + c2 + n2 + d2 + e2, u, u2, rel);
    lemma_related_concat(x + c + n + d + e + u, y + c2 + n2 + d2 + e2 + u2, p, p2, rel);
}

/// After the references of a graph are replaced, the read door lists the same
/// sites and owners as before, in the same order, with the answers in place of
/// the ids.
pub proof fn law_read_door_lists_the_answers<F: Fn(NodeRefSite, u32, NodeId) -> NodeId>(
    a: DataFlowGraph,
    b: DataFlowGraph,
    f: F,
)
    requires
        a.meta@.len() == a.nodes@.len(),
        a.refs_replaced(&b, f),
    ensures
        door_images(f, a.door_refs(), b.door_refs()),
{
    lemma_meta_images(a, b, f, a.nodes@.len() as int);
    lemma_sg_images(a, b, f, a.subgraphs@.len() as int);
    lemma_images_concat(
        f,
        all_meta_refs(a.meta@, a.nodes@.len() as int),
        all_meta_refs(b.meta@, a.nodes@.len() as int),
        all_sg_refs(a.subgraphs@, a.subgraphs@.len() as int),
        all_sg_refs(b.subgraphs@, a.subgraphs@.len() as int),
    );
}

proof fn lemma_images_concat<F: Fn(NodeRefSite, u32, NodeId) -> NodeId>(
    f: F,
    a: Seq<(NodeRefSite, u32, NodeId)>,
    b: Seq<(NodeRefSite, u32, NodeId)>,
    c: Seq<(NodeRefSite, u32, NodeId)>,
    d: Seq<(NodeRefSite, u32, NodeId)>,
)
    requires
        door_images(f, a, b),
        door_images(f, c, d),
    ensures
        door_images(f, a + c, b + d),
{
    let x = a + c;
    let y = b + d;
    assert forall|k: int| 0 <= k < x.len() implies (#[trigger] y[k]).0 == x[k].0 && y[k].1 == x[k].1 && f.ensures(
        (x[k].0, x[k].1, x[k].2),
        y[k].2,
    ) by {
        if k < a.len() {
            assert(b[k] == y[k]);
        } else {
            assert(d[k - a.len()] == y[k]);
        }
    }
}

proof fn lemma_labelled_images<F: Fn(NodeRefSite, u32, NodeId) -> NodeId>(
    f: F,
    site: NodeRefSite,
    owner: int,
    a: Seq<NodeId>,
    b: Seq<NodeId>,
)
    requires
        ids_related(a, b, answers(f, site, owner as u32)),
    ensures
        door_images(f, labelled(site, owner, a), labelled(site, owner, b)),
{
    let rel = answers(f, site, owner as u32);
    let x = labelled(site, owner, a);
    let y = labelled(site, owner, b);
    assert forall|k: int| 0 <= k < x.len() implies (#[trigger] y[k]).0 == x[k].0 && y[k].1 == x[k].1 && f.ensures(
        (x[k].0, x[k].1, x[k].2),
        y[k].2,
    ) by {
        assert(rel(a[k], b[k]));
    }
}

proof fn lemma_meta_images<F: Fn(NodeRefSite, u32, NodeId) -> NodeId>(
    a: DataFlowGraph,
    b: DataFlowGraph,
    f: F,
    n: int,
)
    requires
        0 <= n <= a.meta@.len(),
        a.refs_replaced(&b, f),
    ensures
        door_images(f, all_meta_refs(a.meta@, n), all_meta_refs(b.meta@, n)),
    decreases n,
{
    if n > 0 {
        lemma_meta_images(a, b, f, n - 1);
        let site = NodeRefSite::NodeMeta;
        let (x, y) = (a.meta@[n - 1], b.meta@[n - 1]);
        law_doors_agree_on_metadata(x, y, answers(f, site, (n - 1) as u32));
        lemma_labelled_images(f, site, n - 1, meta_refs(x), meta_refs(y));
        lemma_images_concat(
            f,
            all_meta_refs(a.meta@, n - 1),
            all_meta_refs(b.meta@, n - 1),
            labelled(site, n - 1, meta_refs(x)),
            labelled(site, n - 1, meta_refs(y)),
        );
    }
}

proof fn lemma_sg_images<F: Fn(NodeRefSite, u32, NodeId) -> NodeId>(
    a: DataFlowGraph,
    b: DataFlowGraph,
    f: F,
    n: int,
)
    requires
        0 <= n <= a.subgraphs@.len(),
        a.refs_replaced(&b, f),
    ensures
        door_images(f, all_sg_refs(a.subgraphs@, n), all_sg_refs(b.subgraphs@, n)),
    decreases n,
{
    if n > 0 {
        lemma_sg_images(a, b, f, n - 1);
        let site = NodeRefSite::SgAnchor;
        let (x, y) = (a.subgraphs@[n - 1], b.subgraphs@[n - 1]);
        law_doors_agree_on_anchors(x, y, answers(f, site, (n - 1) as u32));
        lemma_labelled_images(f, site, n - 1, sg_refs(x), sg_refs(y));
        lemma_images_concat(
            f,
            all_sg_refs(a.subgraphs@, n - 1),
            all_sg_refs(b.subgraphs@, n - 1),
            labelled(site, n - 1, sg_refs(x)),
            labelled(site, n - 1, sg_refs(y)),
        );
    }
}

pub proof fn lemma_image_by_table(map: Seq<NodeId>, a: Seq<NodeId>, b: Seq<NodeId>)
    requires
        ids_related(a, b, by_table(map)),
    ensures
        b == ids_image(map, a),
{
    assert forall|k: int| 0 <= k < a.len() implies b[k] == map[a[k].0 as int] by {
        assert(by_table(map)(a[k], b[k]));
    }
    assert(b =~= ids_image(map, a));
}

proof fn lemma_ids_weaken(
    a: Seq<NodeId>,
    b: Seq<NodeId>,
    r: spec_fn(NodeId, NodeId) -> bool,
    q: spec_fn(NodeId, NodeId) -> bool,
)
    requires
        ids_related(a, b, r),
        forall|x: NodeId, y: NodeId| #[trigger] r(x, y) ==> q(x, y),
    ensures
        ids_related(a, b, q),
{
    assert forall|k: int| 0 <= k < a.len() implies q(#[trigger] a[k], b[k]) by {
        assert(r(a[k], b[k]));
    }
}

/// Metadata that is related one way is related in every weaker way.
pub proof fn lemma_meta_weaken(
    a: NodeMeta,
    b: NodeMeta,
    r: spec_fn(NodeId, NodeId) -> bool,
    q: spec_fn(NodeId, NodeId) -> bool,
)
    requires
        meta_related(a, b, r),
        forall|x: NodeId, y: NodeId| #[trigger] r(x, y) ==> q(x, y),
    ensures
        meta_related(a, b, q),
{
    if let (Some(x), Some(y)) = (a.gate_branches, b.gate_branches) {
        assert(r(x.condition_input, y.condition_input));
        assert forall|k: int| 0 <= k < x.branches@.len() implies branch_related(
            #[trigger] x.branches@[k],
            y.branches@[k],
            q,
        ) by {
            assert(branch_related(x.branches@[k], y.branches@[k], r));
            lemma_ids_weaken(x.branches@[k].params@, y.branches@[k].params@, r, q);
        }
    }
    if let (Some(x), Some(y)) = (a.select_info, b.select_info) {
        assert forall|k: int| 0 <= k < x.branches@.len() implies select_branch_related(
            #[trigger] x.branches@[k],
            y.branches@[k],
            q,
        ) by {
            assert(select_branch_related(x.branches@[k], y.branches@[k], r));
            assert(r(x.branches@[k].event_source_node, y.branches@[k].event_source_node));
        }
    }
    if let (Some(x), Some(y)) = (a.await_event_source, b.await_event_source) {
        assert(r(x, y));
    }
    if let (Some(x), Some(y)) = (a.writeback_target, b.writeback_target) {
        assert(r(x, y));
    }
}

/// Subgraphs that are related one way are related in every weaker way.
pub proof fn lemma_sg_weaken(
    a: SubGraph,
    b: SubGraph,
    r: spec_fn(NodeId, NodeId) -> bool,
    q: spec_fn(NodeId, NodeId) -> bool,
)
    requires
        sg_related(a, b, r),
        forall|x: NodeId, y: NodeId| #[trigger] r(x, y) ==> q(x, y),
    ensures
        sg_related(a, b, q),
{
    assert(r(a.entry_node, b.entry_node));
    assert(r(a.return_node, b.return_node));
    if let (Some(x), Some(y)) = (a.cond_node, b.cond_node) {
        assert(r(x, y));
    }
    if let (Some(x), Some(y)) = (a.iter_next_node, b.iter_next_node) {
        assert(r(x, y));
    }
    assert forall|k: int| 0 <= k < a.event_source_decls@.len() implies decl_related(
        #[trigger] a.event_source_decls@[k],
        b.event_source_decls@[k],
        q,
    ) by {
        assert(decl_related(a.event_source_decls@[k], b.event_source_decls@[k], r));
        assert(r(a.event_source_decls@[k].node, b.event_source_decls@[k].node));
    }
    assert forall|k: int| 0 <= k < a.defer_table@.len() implies defer_related(
        #[trigger] a.defer_table@[k],
        b.defer_table@[k],
        q,
    ) by {
        let (x, y) = (a.defer_table@[k], b.defer_table@[k]);
        assert(defer_related(x, y, r));
        assert(r(x.trigger_node, y.trigger_node));
        lemma_ids_weaken(x.captured_inputs@, y.captured_inputs@, r, q);
    }
    lemma_ids_weaken(a.upvalue_outer_nodes@, b.upvalue_outer_nodes@, r, q);
    if let (Some(x), Some(y)) = (a.reset_plan, b.reset_plan) {
        lemma_ids_weaken(x.reset_to_zero@, y.reset_to_zero@, r, q);
        lemma_ids_weaken(x.reset_to_one@, y.reset_to_one@, r, q);
        lemma_ids_weaken(x.reset_condition_tree@, y.reset_condition_tree@, r, q);
    }
}

proof fn lemma_ids_unchanged(a: Seq<NodeId>, b: Seq<NodeId>, rel: spec_fn(NodeId, NodeId) -> bool)
    requires
        ids_related(a, b, rel),
        forall|x: NodeId, y: NodeId| #[trigger] rel(x, y) ==> x == y,
    ensures
        a == b,
{
    assert forall|k: int| 0 <= k < a.len() implies a[k] == b[k] by {
        assert(rel(a[k], b[k]));
    }
    assert(a =~= b);
}

/// Replacing each node id of a node's metadata by itself changes nothing.
pub proof fn law_answering_the_id_keeps_metadata(a: NodeMeta, b: NodeMeta, rel: spec_fn(NodeId, NodeId) -> bool)
    requires
        meta_related(a, b, rel),
        forall|x: NodeId, y: NodeId| #[trigger] rel(x, y) ==> x == y,
    ensures
        b == (NodeMeta { gate_branches: b.gate_branches, select_info: b.select_info, ..a }),
        same_gate(a.gate_branches, b.gate_branches),
        same_select(a.select_info, b.select_info),
{
    if let (Some(x), Some(y)) = (a.await_event_source, b.await_event_source) {
        assert(rel(x, y));
    }
    if let (Some(x), Some(y)) = (a.writeback_target, b.writeback_target) {
        assert(rel(x, y));
    }
    if let (Some(x), Some(y)) = (a.gate_branches, b.gate_branches) {
        assert(rel(x.condition_input, y.condition_input));
        assert forall|k: int| 0 <= k < x.branches@.len() implies {
            &&& (#[trigger] x.branches@[k]).when == y.branches@[k].when
            &&& x.branches@[k].subgraph == y.branches@[k].subgraph
            &&& x.branches@[k].params@ == y.branches@[k].params@
        } by {
            assert(branch_related(x.branches@[k], y.branches@[k], rel));
            lemma_ids_unchanged(x.branches@[k].params@, y.branches@[k].params@, rel);
        }
    }
    if let (Some(x), Some(y)) = (a.select_info, b.select_info) {
        assert forall|k: int| 0 <= k < x.branches@.len() implies x.branches@[k] == y.branches@[k] by {
            assert(select_branch_related(x.branches@[k], y.branches@[k], rel));
            assert(rel(x.branches@[k].event_source_node, y.branches@[k].event_source_node));
        }
        assert(x.branches@ =~= y.branches@);
    }
}

/// Replacing each anchor of a subgraph by itself changes nothing.
pub proof fn law_answering_the_id_keeps_subgraphs(a: SubGraph, b: SubGraph, rel: spec_fn(NodeId, NodeId) -> bool)
    requires
        sg_related(a, b, rel),
        forall|x: NodeId, y: NodeId| #[trigger] rel(x, y) ==> x == y,
    ensures
        same_subgraph(a, b),
{
    assert(rel(a.entry_node, b.entry_node));
    assert(rel(a.return_node, b.return_node));
    if let (Some(x), Some(y)) = (a.cond_node, b.cond_node) {
        assert(rel(x, y));
    }
    if let (Some(x), Some(y)) = (a.iter_next_node, b.iter_next_node) {
        assert(rel(x, y));
    }
    assert forall|k: int| 0 <= k < a.event_source_decls@.len() implies a.event_source_decls@[k]
        == b.event_source_decls@[k] by {
        assert(decl_related(a.event_source_decls@[k], b.event_source_decls@[k], rel));
        assert(rel(a.event_source_decls@[k].node, b.event_source_decls@[k].node));
    }
    assert(a.event_source_decls@ =~= b.event_source_decls@);
    assert forall|k: int| 0 <= k < a.defer_table@.len() implies same_defer(
        #[trigger] a.defer_table@[k],
        b.defer_table@[k],
    ) by {
        let (x, y) = (a.defer_table@[k], b.defer_table@[k]);
        assert(defer_related(x, y, rel));
        assert(rel(x.trigger_node, y.trigger_node));
        lemma_ids_unchanged(x.captured_inputs@, y.captured_inputs@, rel);
    }
    lemma_ids_unchanged(a.upvalue_outer_nodes@, b.upvalue_outer_nodes@, rel);
    if let (Some(x), Some(y)) = (a.reset_plan, b.reset_plan) {
        lemma_ids_unchanged(x.reset_to_zero@, y.reset_to_zero@, rel);
        lemma_ids_unchanged(x.reset_to_one@, y.reset_to_one@, rel);
        lemma_ids_unchanged(x.reset_condition_tree@, y.reset_condition_tree@, rel);
    }
}

// ---- what the read door lists ----------------------------------------------

proof fn lemma_branch_refs_hold(bs: Seq<GateBranch>, x: NodeId)
    ensures
        branch_refs(bs).contains(x) <==> exists|k: int|
            0 <= k < bs.len() && (#[trigger] bs[k]).params@.contains(x),
    decreases bs.len(),
{
    if bs.len() > 0 {
        lemma_branch_refs_hold(bs.drop_last(), x);
        vstd::seq_lib::lemma_seq_concat_contains_all_elements(branch_refs(bs.drop_last()), bs.last().params@, x);
        if branch_refs(bs.drop_last()).contains(x) {
            let k = choose|k: int| 0 <= k < bs.len() - 1 && (#[trigger] bs.drop_last()[k]).params@.contains(x);
            assert(bs[k].params@.contains(x));
        }
        if exists|k: int| 0 <= k < bs.len() && (#[trigger] bs[k]).params@.contains(x) {
            let k = choose|k: int| 0 <= k < bs.len() && (#[trigger] bs[k]).params@.contains(x);
            if k < bs.len() - 1 {
                assert(bs.drop_last()[k].params@.contains(x));
            }
        }
    }
}

proof fn lemma_defer_refs_hold(es: Seq<DeferEntry>, x: NodeId)
    ensures
        defer_refs(es).contains(x) <==> exists|k: int|
            0 <= k < es.len() && ((#[trigger] es[k]).trigger_node == x || es[k].captured_inputs@.contains(x)),
    decreases es.len(),
{
    if es.len() > 0 {
        let a = defer_refs(es.drop_last());
        let b = seq![es.last().trigger_node];
        let c = es.last().captured_inputs@;
        lemma_defer_refs_hold(es.drop_last(), x);
        vstd::seq_lib::lemma_seq_concat_contains_all_elements(a, b, x);
        vstd::seq_lib::lemma_seq_concat_contains_all_elements(a + b, c, x);
        assert(b[0] == es.last().trigger_node);
        if a.contains(x) {
            let k = choose|k: int|
                0 <= k < es.len() - 1 && ((#[trigger] es.drop_last()[k]).trigger_node == x
                    || es.drop_last()[k].captured_inputs@.contains(x));
            assert(es[k] == es.drop_last()[k]);
        }
        if exists|k: int|
            0 <= k < es.len() && ((#[trigger] es[k]).trigger_node == x || es[k].captured_inputs@.contains(x)) {
            let k = choose|k: int|
                0 <= k < es.len() && ((#[trigger] es[k]).trigger_node == x || es[k].captured_inputs@.contains(x));
            if k < es.len() - 1 {
                assert(es.drop_last()[k] == es[k]);
            }
        }
    }
}

proof fn lemma_opt_ref_holds(o: Option<NodeId>, x: NodeId)
    ensures
        opt_ref(o).contains(x) <==> o == Some(x),
{
    if let Some(n) = o {
        assert(opt_ref(o)[0] == n);
    }
}

/// The read door lists of a gate its condition and what it hands to each of its
/// branches, and nothing else.
pub proof fn law_gates_are_listed(gb: std::sync::Arc<GateBranches>, x: NodeId)
    ensures
        gate_refs(Some(gb)).contains(x) <==> gb.condition_input == x || exists|k: int|
            0 <= k < gb.branches@.len() && (#[trigger] gb.branches@[k]).params@.contains(x),
{
    let a = seq![gb.condition_input];
    assert(a[0] == gb.condition_input);
    vstd::seq_lib::lemma_seq_concat_contains_all_elements(a, branch_refs(gb.branches@), x);
    lemma_branch_refs_hold(gb.branches@, x);
}

/// The read door lists of a node's metadata what the node awaits, what it
/// writes back to, the references of its gate, and the event sources of its
/// select, and nothing else.
pub proof fn law_metadata_is_listed(m: NodeMeta, x: NodeId)
    ensures
        meta_refs(m).contains(x) <==> {
            ||| m.await_event_source == Some(x)
            ||| m.writeback_target == Some(x)
            ||| m.gate_branches is Some && m.gate_branches->0.condition_input == x
            ||| m.gate_branches is Some && exists|k: int|
                0 <= k < m.gate_branches->0.branches@.len() && (
                #[trigger] m.gate_branches->0.branches@[k]).params@.contains(x)
            ||| m.select_info is Some && exists|k: int|
                0 <= k < m.select_info->0.branches@.len() && (
                #[trigger] m.select_info->0.branches@[k]).event_source_node == x
        },
{
    let a = opt_ref(m.await_event_source);
    let b = opt_ref(m.writeback_target);
    let c = gate_refs(m.gate_branches);
    let d = select_refs(m.select_info);
    vstd::seq_lib::lemma_seq_concat_contains_all_elements(a, b, x);
    vstd::seq_lib::lemma_seq_concat_contains_all_elements(a + b, c, x);
    vstd::seq_lib::lemma_seq_concat_contains_all_elements(a + b + c, d, x);
    lemma_opt_ref_holds(m.await_event_source, x);
    lemma_opt_ref_holds(m.writeback_target, x);
    if let Some(gb) = m.gate_branches {
        law_gates_are_listed(gb, x);
    }
    if let Some(si) = m.select_info {
        if d.contains(x) {
            let k = choose|k: int| 0 <= k < d.len() && d[k] == x;
            assert(si.branches@[k].event_source_node == x);
        }
        if exists|k: int| 0 <= k < si.branches@.len() && (#[trigger] si.branches@[k]).event_source_node == x {
            let k = choose|k: int| 0 <= k < si.branches@.len() && (#[trigger] si.branches@[k]).event_source_node == x;
            assert(d[k] == x);
        }
    }
}

/// The read door lists of a subgraph its entry, what it returns, its condition
/// and iteration step, its event sources, where its defer blocks are registered
/// and what they capture, the outer nodes of its upvalues, and the roots of its
/// reset, and nothing else.
pub proof fn law_anchors_are_listed(sg: SubGraph, x: NodeId)
    ensures
        sg_refs(sg).contains(x) <==> {
            ||| sg.entry_node == x
            ||| sg.return_node == x
            ||| sg.cond_node == Some(x)
            ||| sg.iter_next_node == Some(x)
            ||| exists|k: int|
                0 <= k < sg.event_source_decls@.len() && (#[trigger] sg.event_source_decls@[k]).node == x
            ||| exists|k: int|
                0 <= k < sg.defer_table@.len() && ((#[trigger] sg.defer_table@[k]).trigger_node == x
                    || sg.defer_table@[k].captured_inputs@.contains(x))
            ||| sg.upvalue_outer_nodes@.contains(x)
            ||| sg.reset_plan is Some && (sg.reset_plan->0.reset_to_zero@.contains(x)
                || sg.reset_plan->0.reset_to_one@.contains(x) || sg.reset_plan->0.reset_condition_tree@.contains(x))
        },
{
    let a = seq![sg.entry_node, sg.return_node];
    let b = opt_ref(sg.cond_node);
    let c = opt_ref(sg.iter_next_node);
    let d = decl_refs(sg.event_source_decls@);
    let e = defer_refs(sg.defer_table@);
    let f = sg.upvalue_outer_nodes@;
    let p = plan_refs(sg.reset_plan);
    assert(a[0] == sg.entry_node && a[1] == sg.return_node);
    vstd::seq_lib::lemma_seq_concat_contains_all_elements(a, b, x);
    vstd::seq_lib::lemma_seq_concat_contains_all_elements(a + b, c, x);
    vstd::seq_lib::lemma_seq_concat_contains_all_elements(a + b + c, d, x);
    vstd::seq_lib::lemma_seq_concat_contains_all_elements(a + b + c + d, e, x);
    vstd::seq_lib::lemma_seq_concat_contains_all_elements(a + b + c + d + e, f, x);
    vstd::seq_lib::lemma_seq_concat_contains_all_elements(a + b + c + d + e + f, p, x);
    lemma_opt_ref_holds(sg.cond_node, x);
    lemma_opt_ref_holds(sg.iter_next_node, x);
    lemma_defer_refs_hold(sg.defer_table@, x);
    let ds = sg.event_source_decls@;
    if d.contains(x) {
        let k = choose|k: int| 0 <= k < d.len() && d[k] == x;
        assert(ds[k].node == x);
    }
    if exists|k: int| 0 <= k < ds.len() && (#[trigger] ds[k]).node == x {
        let k = choose|k: int| 0 <= k < ds.len() && (#[trigger] ds[k]).node == x;
        assert(d[k] == x);
    }
    if let Some(plan) = sg.reset_plan {
        let u = plan.reset_to_zero@;
        let v = plan.reset_to_one@;
        let w = plan.reset_condition_tree@;
        vstd::seq_lib::lemma_seq_concat_contains_all_elements(u, v, x);
        vstd::seq_lib::lemma_seq_concat_contains_all_elements(u + v, w, x);
    }
}

} // verus!
