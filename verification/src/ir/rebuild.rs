//! Compaction: drops dead and redirected nodes and unreferenced subgraphs,
//! renumbers what stays, and recomputes what is derived.


use vstd::prelude::*;

use crate::fx::{IdMap, IdSet};
use crate::ir::graph::DataFlowGraph;
use crate::ir::layout::{law_layout_numbers_what_stays, numbering, positions, stays};
use crate::ir::meta::{NodeMeta, NO_OWNER};
use crate::ir::nesting::{
    insert_region, last_container, nested_in, nested_ranges_of, nesting_order, nesting_recomputed,
};
use crate::ir::redirect::{acyclic, resolve_in, resolved};
use crate::ir::refs::{
    accepts, all_below, answers, branch_refs, by_table, defer_refs, gate_refs, ids_image, law_doors_agree_on_anchors,
    law_doors_agree_on_metadata, lemma_image_by_table, lemma_meta_weaken, lemma_sg_weaken, meta_mapped, meta_refs,
    sg_mapped, sg_refs,
};
use crate::ir::renumber::{
    build_sg_table, dispatch_renumbered, kept_before, law_renumbering_keeps_order, look_up_opt_sg, meta_renumbered,
    opt_sg_at, renumber_dispatch, renumber_meta, renumber_sg, sg_renumbered, sg_table,
};
use crate::ir::sg_refs::{meta_placed, picked_metas, sg_placed};
use crate::ir::types::{DeferEntry, GateBranch, Node, NodeId, NodeRefSite, SubGraph};

verus! {

/// The wanted ids of [lo, hi), in order.
pub open spec fn picked(lo: int, hi: int, want: spec_fn(int) -> bool) -> Seq<int>
    decreases hi - lo,
{
    if hi <= lo {
        Seq::empty()
    } else if want(hi - 1) {
        picked(lo, hi - 1, want).push(hi - 1)
    } else {
        picked(lo, hi - 1, want)
    }
}

/// One past the largest position that the ids have in the layout.
pub open spec fn span_end(layout: Seq<int>, ids: Seq<int>) -> int
    decreases ids.len(),
{
    if ids.len() == 0 {
        0
    } else {
        let rest = span_end(layout, ids.drop_last());
        let last = layout.index_of(ids.last()) + 1;
        if last > rest {
            last
        } else {
            rest
        }
    }
}

/// The range that starts at the first id's position and reaches over all of
/// them; the empty range at 0 if there are none.
pub open spec fn span(layout: Seq<int>, ids: Seq<int>) -> (NodeId, NodeId) {
    if ids.len() == 0 {
        (NodeId(0), NodeId(0))
    } else {
        (NodeId(layout.index_of(ids[0]) as u32), NodeId(span_end(layout, ids) as u32))
    }
}

/// Entries of the kept subgraphs among the first `n`; a subgraph without an
/// entry has none.
pub open spec fn names_kept(
    names: Seq<Option<String>>,
    removed: Seq<bool>,
    n: int,
) -> Seq<Option<String>>
    decreases n,
{
    if n <= 0 {
        Seq::empty()
    } else if removed[n - 1] {
        names_kept(names, removed, n - 1)
    } else {
        names_kept(names, removed, n - 1).push(
            if n - 1 < names.len() {
                names[n - 1]
            } else {
                None
            },
        )
    }
}

/// `b` is the subgraph `a` renumbered, with its anchors mapped; only its
/// nested ranges are not said.
pub open spec fn sg_rebuilt(
    a: SubGraph,
    b: SubGraph,
    sgs: Seq<u32>,
    nodes: Seq<NodeId>,
    range: (NodeId, NodeId),
) -> bool {
    exists|m: SubGraph, r: SubGraph|
        sg_renumbered(a, m, sgs, range) && sg_mapped(m, r, nodes) && b == (SubGraph {
            nested_ranges: b.nested_ranges,
            ..r
        })
}

/// `b` is the metadata `a` renumbered, with its node ids mapped.
pub open spec fn meta_rebuilt(a: NodeMeta, b: NodeMeta, sgs: Seq<u32>, nodes: Seq<NodeId>) -> bool {
    exists|m: NodeMeta| meta_renumbered(a, m, sgs) && meta_mapped(m, b, nodes)
}

impl DataFlowGraph {
    /// Whether the id, redirects followed, is a node that stays.
    pub open spec fn lands(&self, dead: Set<u32>, redirect: Map<u32, u32>, id: NodeId) -> bool {
        &&& id.0 < self.nodes@.len()
        &&& resolved(redirect, id.0) < self.nodes@.len()
        &&& stays(dead, redirect, resolved(redirect, id.0) as int)
    }

    pub open spec fn all_land(
        &self,
        dead: Set<u32>,
        redirect: Map<u32, u32>,
        ids: Seq<NodeId>,
    ) -> bool {
        forall|k: int| 0 <= k < ids.len() ==> self.lands(dead, redirect, #[trigger] ids[k])
    }

    /// Number of inputs of the first `k` nodes of the layout.
    pub open spec fn input_sum(&self, layout: Seq<int>, k: int) -> nat
        decreases k,
    {
        if k <= 0 {
            0
        } else {
            self.input_sum(layout, k - 1) + self.nodes@[layout[k - 1]].input_count as nat
        }
    }

    /// Which subgraphs the compaction drops.
    pub open spec fn dropped(
        &self,
        dead: Set<u32>,
        redirect: Map<u32, u32>,
        dead_sgs: Set<u32>,
    ) -> Seq<bool> {
        Seq::new(
            self.subgraphs@.len(),
            |s: int|
                self.drops(
                    picked_metas(self.meta@, self.layout(dead, redirect)),
                    dead_sgs,
                    s,
                ),
        )
    }

    /// New id of every node, redirects followed; `NO_OWNER` where nothing
    /// stays.
    pub open spec fn node_table(&self, dead: Set<u32>, redirect: Map<u32, u32>) -> Seq<NodeId> {
        let layout = self.layout(dead, redirect);
        Seq::new(
            self.nodes@.len(),
            |i: int|
                {
                    let r = resolved(redirect, i as u32) as int;
                    if layout.contains(r) {
                        NodeId(layout.index_of(r) as u32)
                    } else {
                        NodeId(NO_OWNER)
                    }
                },
        )
    }

    /// Nodes outside the range of subgraph `s` that it owns and that stay.
    pub open spec fn owned_outside(
        &self,
        dead: Set<u32>,
        redirect: Map<u32, u32>,
        s: int,
    ) -> spec_fn(int) -> bool {
        |i: int|
            stays(dead, redirect, i) && self.owner_of(i) == self.subgraphs@[s].id.0 && !(
            self.subgraphs@[s].node_range.0.0 <= i < self.range_stop(s))
    }

    /// The staying nodes of subgraph `s`: those of its range, then those
    /// appended for it.
    pub open spec fn sg_members(&self, dead: Set<u32>, redirect: Map<u32, u32>, s: int) -> Seq<int> {
        picked(
            self.subgraphs@[s].node_range.0.0 as int,
            self.range_stop(s),
            self.staying(dead, redirect),
        ) + picked(0, self.nodes@.len() as int, self.owned_outside(dead, redirect, s))
    }

    /// The range of subgraph `s` after the compaction.
    pub open spec fn new_range(&self, dead: Set<u32>, redirect: Map<u32, u32>, s: int) -> (
        NodeId,
        NodeId,
    ) {
        span(self.layout(dead, redirect), self.sg_members(dead, redirect, s))
    }

    /// Where subgraphs are dropped, so that the others are renumbered: every
    /// subgraph id that stays is the place of a subgraph.
    #[verifier::opaque]
    pub open spec fn sg_refs_placed(
        &self,
        dead: Set<u32>,
        redirect: Map<u32, u32>,
        dead_sgs: Set<u32>,
    ) -> bool {
        let removed = self.dropped(dead, redirect, dead_sgs);
        let n = self.subgraphs@.len() as int;
        (exists|s: int| 0 <= s < removed.len() && #[trigger] removed[s]) ==> {
            &&& self.entry_subgraph is Some ==> (self.entry_subgraph->0).0 < n
            &&& forall|k: int|
                0 <= k < self.vtable_fallback_dispatch@.len() ==> (
                #[trigger] self.vtable_fallback_dispatch@[k]).target.0 < n
            &&& forall|i: int|
                0 <= i < self.nodes@.len() && stays(dead, redirect, i) ==> meta_placed(
                    #[trigger] self.meta@[i],
                    n,
                )
            &&& forall|s: int| 0 <= s < n && !removed[s] ==> sg_placed(#[trigger] self.subgraphs@[s], n)
        }
    }

    /// What a compaction needs: every function has its place, every reference of a node or subgraph that
    /// stays leads to a node that stays, redirects run in no circle, and the
    /// inputs fit the pool.
    pub open spec fn rebuildable(
        &self,
        dead: Set<u32>,
        redirect: Map<u32, u32>,
        dead_sgs: Set<u32>,
    ) -> bool {
        &&& self.wf()
        &&& self.function_ids_wf()
        &&& acyclic(redirect)
        &&& forall|i: int| #![trigger self.nodes@[i]]
            0 <= i < self.nodes@.len() && stays(dead, redirect, i) ==> self.all_land(
                dead,
                redirect,
                self.inputs_of(i),
            )
        &&& forall|i: int| #![trigger self.meta@[i]]
            0 <= i < self.nodes@.len() && stays(dead, redirect, i) ==> self.all_land(
                dead,
                redirect,
                meta_refs(self.meta@[i]),
            )
        &&& forall|s: int| #![trigger self.subgraphs@[s]]
            0 <= s < self.subgraphs@.len() && !self.dropped(dead, redirect, dead_sgs)[s]
                ==> self.all_land(dead, redirect, sg_refs(self.subgraphs@[s]))
        &&& self.sg_refs_placed(dead, redirect, dead_sgs)
        &&& self.input_sum(
            self.layout(dead, redirect),
            self.layout(dead, redirect).len() as int,
        ) <= u32::MAX
    }

    /// `new` holds the nodes and inputs of the layout.
    pub open spec fn nodes_rebuilt(
        &self,
        new: &DataFlowGraph,
        dead: Set<u32>,
        redirect: Map<u32, u32>,
    ) -> bool {
        let layout = self.layout(dead, redirect);
        &&& new.nodes@.len() == layout.len()
        &&& new.inputs_pool@.len() == self.input_sum(layout, layout.len() as int)
        &&& forall|k: int| #![trigger new.nodes@[k]]
            0 <= k < layout.len() ==> {
                &&& new.nodes@[k] == Node {
                    inputs_offset: self.input_sum(layout, k) as u32,
                    ..self.nodes@[layout[k]]
                }
                &&& new.inputs_of(k) == ids_image(
                    self.node_table(dead, redirect),
                    self.inputs_of(layout[k]),
                )
            }
    }

    /// `new` is this graph after the compaction.
    pub open spec fn rebuilt(
        &self,
        new: &DataFlowGraph,
        dead: Set<u32>,
        redirect: Map<u32, u32>,
        dead_sgs: Set<u32>,
    ) -> bool {
        let layout = self.layout(dead, redirect);
        let table = self.node_table(dead, redirect);
        let removed = self.dropped(dead, redirect, dead_sgs);
        let sgs = sg_table(removed);
        let some_removed = exists|s: int| 0 <= s < removed.len() && #[trigger] removed[s];
        &&& self.nodes_rebuilt(new, dead, redirect)
        &&& new.meta@.len() == layout.len()
        &&& forall|k: int|
            0 <= k < layout.len() ==> meta_rebuilt(
                self.meta@[layout[k]],
                #[trigger] new.meta@[k],
                sgs,
                table,
            )
        &&& new.subgraphs@.len() == kept_before(removed, removed.len() as int)
        &&& forall|s: int|
            0 <= s < removed.len() && !removed[s] ==> sg_rebuilt(
                #[trigger] self.subgraphs@[s],
                new.subgraphs@[sgs[s] as int],
                sgs,
                table,
                self.new_range(dead, redirect, s),
            )
        &&& forall|s: int|
            0 <= s < new.subgraphs@.len() ==> (#[trigger] new.subgraphs@[s]).nested_ranges@
                == nested_ranges_of(new.subgraphs@, s)
        &&& new.entry_subgraph == opt_sg_at(sgs, self.entry_subgraph)
        &&& dispatch_renumbered(
            self.vtable_fallback_dispatch@,
            new.vtable_fallback_dispatch@,
            sgs,
        )
        &&& self.dispatch_wf() ==> new.dispatch_wf()
        &&& new.sg_debug_names@ == if some_removed && self.sg_debug_names@.len() > 0 {
            names_kept(self.sg_debug_names@, removed, removed.len() as int)
        } else {
            self.sg_debug_names@
        }
        &&& new.downstreams_current()
        &&& new.string_pool@ == self.string_pool@
        &&& new.ir_errors@ == self.ir_errors@
        &&& new.downstream_csr_offsets@ == self.downstream_csr_offsets@
        &&& new.downstream_csr_flat@ == self.downstream_csr_flat@
        &&& if some_removed {
            &&& new.linear_plans@.len() == 0
            &&& new.sg_initial_pending@.len() == 0
            &&& new.sg_initial_seed@.len() == 0
        } else {
            &&& new.linear_plans@ == self.linear_plans@
            &&& new.sg_initial_pending@ == self.sg_initial_pending@
            &&& new.sg_initial_seed@ == self.sg_initial_seed@
        }
    }

    /// The old-to-new map of the compaction.
    pub open spec fn old_to_new(
        &self,
        dead: Set<u32>,
        redirect: Map<u32, u32>,
    ) -> Seq<Option<NodeId>> {
        let layout = self.layout(dead, redirect);
        Seq::new(
            self.nodes@.len(),
            |i: int|
                if layout.contains(i) {
                    Some(NodeId(layout.index_of(i) as u32))
                } else {
                    None
                },
        )
    }
}

// ---- steps -----------------------------------------------------------------

proof fn lemma_numbering_is_layout(o2n: Seq<Option<NodeId>>, n2o: Seq<usize>, x: int)
    requires
        numbering(o2n, n2o),
        0 <= x < o2n.len(),
    ensures
        o2n[x] is Some <==> positions(n2o).contains(x),
        o2n[x] is Some ==> positions(n2o).index_of(x) == (o2n[x]->0).0,
{
    let lay = positions(n2o);
    if o2n[x] is Some {
        let p = (o2n[x]->0).0 as int;
        assert(lay[p] == x);
        let q = lay.index_of(x);
        assert(0 <= q < lay.len() && lay[q] == x);
        assert(n2o[q] == x);
        assert(o2n[x] == Some(NodeId(q as u32)));
    }
    if lay.contains(x) {
        let q = choose|q: int| 0 <= q < lay.len() && lay[q] == x;
        assert(n2o[q] == x);
    }
}

impl DataFlowGraph {
    /// New id of every node, redirects followed.
    fn build_node_table(
        &self,
        dead: &IdSet,
        redirect: &IdMap,
        o2n: &Vec<Option<NodeId>>,
        n2o: &Vec<usize>,
    ) -> (table: Vec<NodeId>)
        requires
            acyclic(redirect@),
            self.nodes@.len() <= u32::MAX,
            o2n@.len() == self.nodes@.len(),
            numbering(o2n@, n2o@),
            positions(n2o@) == self.layout(dead@, redirect@),
        ensures
            table@ == self.node_table(dead@, redirect@),
    {
        let mut table: Vec<NodeId> = Vec::new();
        let total = self.nodes.len();
        let mut i: usize = 0;
        while i < total
            invariant
                i <= total == self.nodes@.len() == o2n@.len() <= u32::MAX,
                acyclic(redirect@),
                numbering(o2n@, n2o@),
                positions(n2o@) == self.layout(dead@, redirect@),
                table@ == self.node_table(dead@, redirect@).take(i as int),
            decreases total - i,
        {
            let r = resolve_in(redirect, i as u32) as usize;
            let mut id = NodeId(NO_OWNER);
            if r < total {
                proof {
                    lemma_numbering_is_layout(o2n@, n2o@, r as int);
                }
                if let Some(new) = o2n[r] {
                    id = new;
                }
            } else {
                proof {
                    law_layout_numbers_what_stays(self, dead@, redirect@);
                    assert(!self.layout(dead@, redirect@).contains(r as int));
                }
            }
            table.push(id);
            assert(table@ =~= self.node_table(dead@, redirect@).take(i + 1));
            i = i + 1;
        }
        assert(table@ =~= self.node_table(dead@, redirect@));
        table
    }

    /// The nodes of the layout with their inputs mapped.
    fn compact_nodes(&self, dead: &IdSet, redirect: &IdMap, n2o: &Vec<usize>, table: &Vec<NodeId>) -> (r:
        (Vec<Node>, Vec<NodeId>))
        requires
            self.wf(),
            acyclic(redirect@),
            positions(n2o@) == self.layout(dead@, redirect@),
            table@ == self.node_table(dead@, redirect@),
            forall|i: int| #![trigger self.nodes@[i]]
                0 <= i < self.nodes@.len() && stays(dead@, redirect@, i) ==> self.all_land(
                    dead@,
                    redirect@,
                    self.inputs_of(i),
                ),
            self.input_sum(
                self.layout(dead@, redirect@),
                self.layout(dead@, redirect@).len() as int,
            ) <= u32::MAX,
        ensures
            r.0@.len() == n2o@.len(),
            r.1@.len() == self.input_sum(self.layout(dead@, redirect@), n2o@.len() as int),
            forall|k: int| #![trigger r.0@[k]]
                0 <= k < n2o@.len() ==> {
                    let lay = self.layout(dead@, redirect@);
                    let at = self.input_sum(lay, k) as int;
                    &&& r.0@[k] == Node { inputs_offset: at as u32, ..self.nodes@[lay[k]] }
                    &&& at + r.0@[k].input_count <= r.1@.len()
                    &&& r.1@.subrange(at, at + r.0@[k].input_count) == ids_image(
                        table@,
                        self.inputs_of(lay[k]),
                    )
                },
    {
        let ghost lay = self.layout(dead@, redirect@);
        proof {
            law_layout_numbers_what_stays(self, dead@, redirect@);
        }
        let mut nodes: Vec<Node> = Vec::new();
        let mut inputs: Vec<NodeId> = Vec::new();
        let mut k: usize = 0;
        while k < n2o.len()
            invariant
                self.wf(),
                lay == self.layout(dead@, redirect@),
                lay == positions(n2o@),
                forall|x: int| #[trigger]
                    lay.contains(x) <==> 0 <= x < self.nodes@.len() && stays(dead@, redirect@, x),
                table@ == self.node_table(dead@, redirect@),
                forall|i: int| #![trigger self.nodes@[i]]
                    0 <= i < self.nodes@.len() && stays(dead@, redirect@, i) ==> self.all_land(
                        dead@,
                        redirect@,
                        self.inputs_of(i),
                    ),
                self.input_sum(lay, lay.len() as int) <= u32::MAX,
                k <= n2o@.len(),
                nodes@.len() == k,
                inputs@.len() == self.input_sum(lay, k as int),
                forall|j: int| #![trigger nodes@[j]]
                    0 <= j < k ==> {
                        let at = self.input_sum(lay, j) as int;
                        &&& nodes@[j] == Node { inputs_offset: at as u32, ..self.nodes@[lay[j]] }
                        &&& at + nodes@[j].input_count <= inputs@.len()
                        &&& inputs@.subrange(at, at + nodes@[j].input_count) == ids_image(
                            table@,
                            self.inputs_of(lay[j]),
                        )
                    },
            decreases n2o@.len() - k,
        {
            let old_idx = n2o[k];
            assert(lay[k as int] == old_idx);
            assert(lay.contains(old_idx as int));
            let ghost image = ids_image(table@, self.inputs_of(old_idx as int));
            let mut node = self.nodes[old_idx];
            let old_inputs = self.inputs(old_idx);
            assert(old_inputs@ == self.inputs_of(old_idx as int));
            assert(old_inputs@.len() == node.input_count);
            proof {
                lemma_input_sum_grows(self, lay, k + 1, lay.len() as int);
            }
            let offset = inputs.len() as u32;
            let ghost before = inputs@;
            let mut j: usize = 0;
            while j < old_inputs.len()
                invariant
                    j <= old_inputs@.len(),
                    old_inputs@ == self.inputs_of(old_idx as int),
                    table@.len() == self.nodes@.len(),
                    image == ids_image(table@, old_inputs@),
                    self.all_land(dead@, redirect@, old_inputs@),
                    inputs@ == before + image.take(j as int),
                decreases old_inputs@.len() - j,
            {
                assert(self.lands(dead@, redirect@, old_inputs@[j as int]));
                inputs.push(table[old_inputs[j].0 as usize]);
                assert(inputs@ =~= before + image.take(j + 1));
                j = j + 1;
            }
            assert(image.take(image.len() as int) =~= image);
            node.inputs_offset = offset;
            nodes.push(node);
            assert forall|q: int| #![trigger nodes@[q]] 0 <= q < k + 1 implies {
                let at = self.input_sum(lay, q) as int;
                &&& nodes@[q] == Node { inputs_offset: at as u32, ..self.nodes@[lay[q]] }
                &&& at + nodes@[q].input_count <= inputs@.len()
                &&& inputs@.subrange(at, at + nodes@[q].input_count) == ids_image(
                    table@,
                    self.inputs_of(lay[q]),
                )
            } by {
                let at = self.input_sum(lay, q) as int;
                if q < k {
                    assert(at + nodes@[q].input_count <= before.len());
                    assert(inputs@.subrange(at, at + nodes@[q].input_count) =~= before.subrange(
                        at,
                        at + nodes@[q].input_count,
                    ));
                } else {
                    assert(inputs@.subrange(at, at + nodes@[q].input_count) =~= image);
                }
            }
            k = k + 1;
        }
        (nodes, inputs)
    }

    /// The range of subgraph `s` after the compaction.
    fn compute_new_range(
        &self,
        s: usize,
        dead: &IdSet,
        redirect: &IdMap,
        owners: &Vec<u32>,
        o2n: &Vec<Option<NodeId>>,
        n2o: &Vec<usize>,
    ) -> (range: (NodeId, NodeId))
        requires
            s < self.subgraphs@.len(),
            self.nodes@.len() <= u32::MAX,
            owners@.len() == self.nodes@.len(),
            forall|i: int|
                0 <= i < self.nodes@.len() ==> #[trigger] owners@[i] == self.owner_of(i),
            o2n@.len() == self.nodes@.len(),
            numbering(o2n@, n2o@),
            positions(n2o@) == self.layout(dead@, redirect@),
        ensures
            range == self.new_range(dead@, redirect@, s as int),
    {
        let ghost lay = self.layout(dead@, redirect@);
        proof {
            law_layout_numbers_what_stays(self, dead@, redirect@);
        }
        let total = self.nodes.len();
        let old_range = self.subgraphs[s].node_range;
        let id = self.subgraphs[s].id.0;
        let start = old_range.0.0 as usize;
        let stop: usize = if (old_range.1.0 as usize) < total {
            old_range.1.0 as usize
        } else {
            total
        };
        let ghost staying = self.staying(dead@, redirect@);
        let mut first: Option<NodeId> = None;
        let mut end: u32 = 0;
        let mut i: usize = start;
        while i < stop
            invariant
                total == self.nodes@.len() == o2n@.len() <= u32::MAX,
                numbering(o2n@, n2o@),
                lay == positions(n2o@),
                forall|x: int| #[trigger]
                    lay.contains(x) <==> 0 <= x < total && stays(dead@, redirect@, x),
                staying == self.staying(dead@, redirect@),
                start <= i,
                i <= stop || i == start,
                stop <= total,
                spans(lay, picked(start as int, i as int, staying), first, end),
            decreases stop - i,
        {
            if Self::node_stays(dead, redirect, i) {
                assert(staying(i as int));
                assert(lay.contains(i as int));
                proof {
                    lemma_numbering_is_layout(o2n@, n2o@, i as int);
                }
                let nid = o2n[i].unwrap();
                proof {
                    lemma_spans_push(
                        lay,
                        picked(start as int, i as int, staying),
                        first,
                        end,
                        i as int,
                    );
                }
                if first.is_none() {
                    first = Some(nid);
                }
                if nid.0 + 1 > end {
                    end = nid.0 + 1;
                }
            } else {
                assert(!staying(i as int));
            }
            i = i + 1;
        }
        let ghost inside = picked(start as int, stop as int, staying);
        assert(inside == picked(start as int, i as int, staying));
        let ghost outside = self.owned_outside(dead@, redirect@, s as int);
        let mut j: usize = 0;
        assert(inside + picked(0, 0, outside) =~= inside);
        while j < total
            invariant
                total == self.nodes@.len() == o2n@.len() == owners@.len() <= u32::MAX,
                numbering(o2n@, n2o@),
                lay == positions(n2o@),
                forall|x: int| #[trigger]
                    lay.contains(x) <==> 0 <= x < total && stays(dead@, redirect@, x),
                forall|i: int| 0 <= i < total ==> #[trigger] owners@[i] == self.owner_of(i),
                s < self.subgraphs@.len(),
                id == self.subgraphs@[s as int].id.0,
                start == self.subgraphs@[s as int].node_range.0.0,
                stop == self.range_stop(s as int),
                outside == self.owned_outside(dead@, redirect@, s as int),
                j <= total,
                spans(lay, inside + picked(0, j as int, outside), first, end),
            decreases total - j,
        {
            assert(owners@[j as int] == self.owner_of(j as int));
            if owners[j] == id && !(j >= start && j < stop) && Self::node_stays(dead, redirect, j) {
                assert(outside(j as int));
                assert(lay.contains(j as int));
                proof {
                    lemma_numbering_is_layout(o2n@, n2o@, j as int);
                }
                let nid = o2n[j].unwrap();
                proof {
                    lemma_spans_push(
                        lay,
                        inside + picked(0, j as int, outside),
                        first,
                        end,
                        j as int,
                    );
                    assert(inside + picked(0, j + 1, outside) =~= (inside + picked(
                        0,
                        j as int,
                        outside,
                    )).push(j as int));
                }
                if first.is_none() {
                    first = Some(nid);
                }
                if nid.0 + 1 > end {
                    end = nid.0 + 1;
                }
            } else {
                assert(!outside(j as int));
            }
            j = j + 1;
        }
        match first {
            Some(ns) => (ns, NodeId(end)),
            None => (NodeId(0), NodeId(0)),
        }
    }
}

/// `first` and `end` are the bounds of the span over the ids.
spec fn spans(lay: Seq<int>, ids: Seq<int>, first: Option<NodeId>, end: u32) -> bool {
    &&& end == span_end(lay, ids)
    &&& match first {
        None => ids.len() == 0,
        Some(f) => ids.len() > 0 && f.0 == lay.index_of(ids[0]),
    }
}

proof fn lemma_spans_push(lay: Seq<int>, ids: Seq<int>, first: Option<NodeId>, end: u32, x: int)
    requires
        spans(lay, ids, first, end),
        lay.contains(x),
        lay.len() <= u32::MAX,
    ensures
        ({
            let p = lay.index_of(x);
            let f = if first is None {
                Some(NodeId(p as u32))
            } else {
                first
            };
            let e = if p + 1 > end {
                (p + 1) as u32
            } else {
                end
            };
            spans(lay, ids.push(x), f, e)
        }),
{
    let p = lay.index_of(x);
    assert(0 <= p < lay.len());
    assert(ids.push(x).drop_last() =~= ids);
    assert(ids.push(x).last() == x);
    if ids.len() > 0 {
        assert(ids.push(x)[0] == ids[0]);
    }
}

proof fn lemma_input_sum_grows(g: &DataFlowGraph, lay: Seq<int>, a: int, b: int)
    requires
        0 <= a <= b,
    ensures
        g.input_sum(lay, a) <= g.input_sum(lay, b),
    decreases b - a,
{
    if a < b {
        lemma_input_sum_grows(g, lay, a, b - 1);
    }
}

/// Takes the picked metadata out of the vector and renumbers it.
fn take_metas(metas: &mut Vec<NodeMeta>, n2o: &Vec<usize>, sgs: &Vec<u32>) -> (r: Vec<NodeMeta>)
    requires
        forall|k: int| 0 <= k < n2o@.len() ==> (#[trigger] n2o@[k]) < old(metas)@.len(),
        positions(n2o@).no_duplicates(),
    ensures
        r@.len() == n2o@.len(),
        forall|k: int|
            0 <= k < n2o@.len() ==> meta_renumbered(
                old(metas)@[n2o@[k] as int],
                #[trigger] r@[k],
                sgs@,
            ),
{
    let mut r: Vec<NodeMeta> = Vec::new();
    let mut k: usize = 0;
    while k < n2o.len()
        invariant
            forall|k: int| 0 <= k < n2o@.len() ==> (#[trigger] n2o@[k]) < old(metas)@.len(),
            positions(n2o@).no_duplicates(),
            metas@.len() == old(metas)@.len(),
            k <= n2o@.len(),
            r@.len() == k,
            forall|j: int|
                0 <= j < k ==> meta_renumbered(
                    old(metas)@[n2o@[j] as int],
                    #[trigger] r@[j],
                    sgs@,
                ),
            forall|j: int|
                k <= j < n2o@.len() ==> metas@[#[trigger] n2o@[j] as int]
                    == old(metas)@[n2o@[j] as int],
        decreases n2o@.len() - k,
    {
        let at = n2o[k];
        let mut m = NodeMeta::new();
        assert forall|j: int| k < j < n2o@.len() implies #[trigger] n2o@[j] != at by {
            assert(positions(n2o@)[j] != positions(n2o@)[k as int]);
        }
        core::mem::swap(&mut metas[at], &mut m);
        r.push(renumber_meta(m, sgs));
        k = k + 1;
    }
    r
}

/// Subgraph `s` has been kept at its new position.
spec fn sg_is_at(
    all: Seq<SubGraph>,
    kept: Seq<SubGraph>,
    table: Seq<u32>,
    ranges: Seq<(NodeId, NodeId)>,
    s: int,
) -> bool {
    table[s] < kept.len() && sg_renumbered(all[s], kept[table[s] as int], table, ranges[s])
}

/// Keeps the subgraphs that are not removed, renumbered and with their new
/// ranges.
fn keep_subgraphs(
    sgs: Vec<SubGraph>,
    removed: &Vec<bool>,
    table: &Vec<u32>,
    ranges: &Vec<(NodeId, NodeId)>,
) -> (r: Vec<SubGraph>)
    requires
        removed@.len() == sgs@.len() <= u32::MAX,
        ranges@.len() == sgs@.len(),
        table@ == sg_table(removed@),
    ensures
        r@.len() == kept_before(removed@, removed@.len() as int),
        forall|s: int|
            0 <= s < sgs@.len() && !removed@[s] ==> sg_renumbered(
                #[trigger] sgs@[s],
                r@[table@[s] as int],
                table@,
                ranges@[s],
            ),
{
    let ghost all = sgs@;
    let mut r: Vec<SubGraph> = Vec::new();
    let mut rest = sgs;
    // Reverse, so that the next subgraph is always the last one.
    let mut rev: Vec<SubGraph> = Vec::new();
    while rest.len() > 0
        invariant
            rest@.len() + rev@.len() == all.len(),
            rest@ == all.take(rest@.len() as int),
            rev@ == all.skip(rest@.len() as int).reverse(),
        decreases rest@.len(),
    {
        let ghost n = rest@.len() as int;
        let sg = rest.pop().unwrap();
        assert(rest@ =~= all.take(n - 1));
        rev.push(sg);
        assert(rev@ =~= all.skip(n - 1).reverse());
    }
    let mut i: usize = 0;
    assert(rev@ =~= all.reverse());
    while rev.len() > 0
        invariant
            all.len() == removed@.len() == ranges@.len() <= u32::MAX,
            table@ == sg_table(removed@),
            i <= all.len(),
            rev@.len() == all.len() - i,
            rev@ == all.skip(i as int).reverse(),
            r@.len() == kept_before(removed@, i as int),
            r@.len() <= i,
            forall|s: int|
                0 <= s < i && !removed@[s] ==> #[trigger] sg_is_at(
                    all,
                    r@,
                    table@,
                    ranges@,
                    s,
                ),
        decreases rev@.len(),
    {
        let ghost before = rev@;
        let sg = rev.pop().unwrap();
        assert(sg == all[i as int]);
        assert(rev@ =~= all.skip(i + 1).reverse());
        if !removed[i] {
            let ghost prev = r@;
            r.push(renumber_sg(sg, table, ranges[i]));
            assert forall|s: int| 0 <= s < i + 1 && !removed@[s] implies #[trigger] sg_is_at(
                all,
                r@,
                table@,
                ranges@,
                s,
            ) by {
                if s < i {
                    assert(sg_is_at(all, prev, table@, ranges@, s));
                }
            }
        }
        i = i + 1;
    }
    assert forall|s: int| 0 <= s < all.len() && !removed@[s] implies sg_renumbered(
        #[trigger] all[s],
        r@[table@[s] as int],
        table@,
        ranges@[s],
    ) by {
        assert(sg_is_at(all, r@, table@, ranges@, s));
    }
    r
}

/// The names of the kept subgraphs.
fn keep_names(names: &Vec<Option<String>>, removed: &Vec<bool>) -> (r: Vec<Option<String>>)
    ensures
        r@ == names_kept(names@, removed@, removed@.len() as int),
{
    let mut r: Vec<Option<String>> = Vec::new();
    let mut i: usize = 0;
    while i < removed.len()
        invariant
            i <= removed@.len(),
            r@ == names_kept(names@, removed@, i as int),
        decreases removed@.len() - i,
    {
        if !removed[i] {
            let mut name: Option<String> = None;
            if i < names.len() {
                if let Some(n) = &names[i] {
                    name = Some(n.clone());
                }
            }
            r.push(name);
        }
        i = i + 1;
    }
    r
}

proof fn lemma_branch_refs_same(a: Seq<GateBranch>, b: Seq<GateBranch>)
    requires
        a.len() == b.len(),
        forall|k: int| 0 <= k < a.len() ==> (#[trigger] a[k]).params@ == b[k].params@,
    ensures
        branch_refs(a) == branch_refs(b),
    decreases a.len(),
{
    if a.len() > 0 {
        assert forall|k: int| 0 <= k < a.drop_last().len() implies (
        #[trigger] a.drop_last()[k]).params@ == b.drop_last()[k].params@ by {
            assert(a[k].params@ == b[k].params@);
        }
        lemma_branch_refs_same(a.drop_last(), b.drop_last());
        assert(a[a.len() - 1].params@ == b[b.len() - 1].params@);
    }
}

proof fn lemma_defer_refs_same(a: Seq<DeferEntry>, b: Seq<DeferEntry>)
    requires
        a.len() == b.len(),
        forall|k: int|
            0 <= k < a.len() ==> (#[trigger] a[k]).trigger_node == b[k].trigger_node
                && a[k].captured_inputs == b[k].captured_inputs,
    ensures
        defer_refs(a) == defer_refs(b),
    decreases a.len(),
{
    if a.len() > 0 {
        assert forall|k: int| 0 <= k < a.drop_last().len() implies (
        #[trigger] a.drop_last()[k]).trigger_node == b.drop_last()[k].trigger_node
            && a.drop_last()[k].captured_inputs == b.drop_last()[k].captured_inputs by {
            assert(a[k].trigger_node == b[k].trigger_node);
        }
        lemma_defer_refs_same(a.drop_last(), b.drop_last());
        assert(a[a.len() - 1].trigger_node == b[b.len() - 1].trigger_node);
    }
}

/// Renumbering subgraphs leaves the node ids of metadata alone.
proof fn lemma_meta_refs_renumbered(a: NodeMeta, b: NodeMeta, sgs: Seq<u32>)
    requires
        meta_renumbered(a, b, sgs),
    ensures
        meta_refs(b) == meta_refs(a),
{
    if let (Some(x), Some(y)) = (a.gate_branches, b.gate_branches) {
        assert forall|k: int| 0 <= k < x.branches@.len() implies (
        #[trigger] x.branches@[k]).params@ == y.branches@[k].params@ by {
        }
        lemma_branch_refs_same(x.branches@, y.branches@);
    }
    assert(gate_refs(b.gate_branches) == gate_refs(a.gate_branches));
    assert(crate::ir::refs::select_refs(b.select_info) =~= crate::ir::refs::select_refs(
        a.select_info,
    ));
}

/// Renumbering subgraphs leaves the anchors of a subgraph alone.
proof fn lemma_sg_refs_renumbered(a: SubGraph, b: SubGraph, sgs: Seq<u32>, range: (NodeId, NodeId))
    requires
        sg_renumbered(a, b, sgs, range),
    ensures
        sg_refs(b) == sg_refs(a),
{
    lemma_defer_refs_same(a.defer_table@, b.defer_table@);
}

/// Where every id lands, its image is a node of the compacted graph.
proof fn lemma_landing_images(
    g: &DataFlowGraph,
    dead: Set<u32>,
    redirect: Map<u32, u32>,
    ids: Seq<NodeId>,
)
    requires
        g.nodes@.len() <= u32::MAX,
        g.all_land(dead, redirect, ids),
    ensures
        all_below(ids, g.nodes@.len() as int),
        all_below(
            ids_image(g.node_table(dead, redirect), ids),
            g.layout(dead, redirect).len() as int,
        ),
{
    let lay = g.layout(dead, redirect);
    law_layout_numbers_what_stays(g, dead, redirect);
    assert forall|k: int| 0 <= k < ids.len() implies (#[trigger] ids[k]).0 < g.nodes@.len() by {
        assert(g.lands(dead, redirect, ids[k]));
    }
    let image = ids_image(g.node_table(dead, redirect), ids);
    lemma_layout_len(g, dead, redirect);
    assert forall|k: int| 0 <= k < image.len() implies (#[trigger] image[k]).0 < lay.len() by {
        assert(g.lands(dead, redirect, ids[k]));
        let r = resolved(redirect, ids[k].0) as int;
        assert(lay.contains(r));
        assert(0 <= lay.index_of(r) < lay.len());
    }
}

proof fn lemma_layout_len(g: &DataFlowGraph, dead: Set<u32>, redirect: Map<u32, u32>)
    ensures
        g.layout(dead, redirect).len() <= g.nodes@.len(),
{
    let lay = g.layout(dead, redirect);
    law_layout_numbers_what_stays(g, dead, redirect);
    lay.unique_seq_to_set();
    let all = vstd::set_lib::set_int_range(0, g.nodes@.len() as int);
    vstd::set_lib::lemma_int_range(0, g.nodes@.len() as int);
    assert(lay.to_set().subset_of(all)) by {
        assert forall|x: int| lay.to_set().contains(x) implies all.contains(x) by {
            assert(lay.contains(x));
        }
    }
    vstd::set_lib::lemma_len_subset(lay.to_set(), all);
}

// ---- nesting depends on ranges only ----------------------------------------

proof fn lemma_nesting_frame(a: Seq<SubGraph>, b: Seq<SubGraph>, i: int)
    requires
        a.len() == b.len(),
        forall|k: int| 0 <= k < a.len() ==> (#[trigger] a[k]).node_range == b[k].node_range,
        0 <= i < a.len(),
    ensures
        nested_ranges_of(a, i) == nested_ranges_of(b, i),
{
    lemma_nesting_order_frame(a, b, a.len() as int);
    let order = nesting_order(a, a.len() as int);
    lemma_nested_in_frame(a, b, order, i, order.len() as int);
}

proof fn lemma_nesting_order_frame(a: Seq<SubGraph>, b: Seq<SubGraph>, n: int)
    requires
        a.len() == b.len(),
        0 <= n <= a.len(),
        forall|k: int| 0 <= k < a.len() ==> (#[trigger] a[k]).node_range == b[k].node_range,
    ensures
        nesting_order(a, n) == nesting_order(b, n),
        forall|k: int|
            0 <= k < nesting_order(a, n).len() ==> 0 <= #[trigger] nesting_order(a, n)[k] < n,
    decreases n,
{
    if n > 0 {
        lemma_nesting_order_frame(a, b, n - 1);
        assert(a[n - 1].node_range == b[n - 1].node_range);
        lemma_insert_region_frame(a, b, nesting_order(a, n - 1), n - 1, n);
    }
}

proof fn lemma_insert_region_frame(
    a: Seq<SubGraph>,
    b: Seq<SubGraph>,
    order: Seq<int>,
    x: int,
    n: int,
)
    requires
        a.len() == b.len(),
        0 <= x < n <= a.len(),
        forall|k: int| 0 <= k < a.len() ==> (#[trigger] a[k]).node_range == b[k].node_range,
        forall|k: int| 0 <= k < order.len() ==> 0 <= #[trigger] order[k] < n,
    ensures
        insert_region(a, order, x) == insert_region(b, order, x),
        forall|k: int|
            0 <= k < insert_region(a, order, x).len() ==> 0 <= #[trigger] insert_region(
                a,
                order,
                x,
            )[k] < n,
    decreases order.len(),
{
    assert(a[x].node_range == b[x].node_range);
    if order.len() > 0 {
        let l = order[order.len() - 1];
        assert(a[l].node_range == b[l].node_range);
        assert forall|k: int| 0 <= k < order.drop_last().len() implies 0
            <= #[trigger] order.drop_last()[k] < n by {
            assert(order[k] == order.drop_last()[k]);
        }
        lemma_insert_region_frame(a, b, order.drop_last(), x, n);
    }
}

proof fn lemma_nested_in_frame(
    a: Seq<SubGraph>,
    b: Seq<SubGraph>,
    order: Seq<int>,
    i: int,
    m: int,
)
    requires
        a.len() == b.len(),
        0 <= m <= order.len(),
        forall|k: int| 0 <= k < a.len() ==> (#[trigger] a[k]).node_range == b[k].node_range,
        forall|k: int| 0 <= k < order.len() ==> 0 <= #[trigger] order[k] < a.len(),
    ensures
        nested_in(a, order, i, m) == nested_in(b, order, i, m),
    decreases m,
{
    if m > 0 {
        lemma_nested_in_frame(a, b, order, i, m - 1);
        let o = order[m - 1];
        assert(a[o].node_range == b[o].node_range);
        lemma_last_container_frame(a, b, order, a[o].node_range, m - 1);
    }
}

proof fn lemma_last_container_frame(
    a: Seq<SubGraph>,
    b: Seq<SubGraph>,
    order: Seq<int>,
    range: (NodeId, NodeId),
    p: int,
)
    requires
        a.len() == b.len(),
        0 <= p <= order.len(),
        forall|k: int| 0 <= k < a.len() ==> (#[trigger] a[k]).node_range == b[k].node_range,
        forall|k: int| 0 <= k < order.len() ==> 0 <= #[trigger] order[k] < a.len(),
    ensures
        last_container(a, order, range, p) == last_container(b, order, range, p),
    decreases p,
{
    if p > 0 {
        lemma_last_container_frame(a, b, order, range, p - 1);
        let o = order[p - 1];
        assert(a[o].node_range == b[o].node_range);
    }
}

// ---- the compaction --------------------------------------------------------

proof fn lemma_sg_table_onto(removed: Seq<bool>, n: int, q: int)
    requires
        0 <= n <= removed.len() <= u32::MAX,
        0 <= q < kept_before(removed, n),
    ensures
        exists|s: int| 0 <= s < n && !removed[s] && #[trigger] sg_table(removed)[s] == q,
    decreases n,
{
    if n > 0 {
        if q < kept_before(removed, n - 1) {
            lemma_sg_table_onto(removed, n - 1, q);
            let s = choose|s: int|
                0 <= s < n - 1 && !removed[s] && #[trigger] sg_table(removed)[s] == q;
            assert(0 <= s < n && sg_table(removed)[s] == q);
        } else {
            lemma_kept_count(removed, n - 1);
            assert(!removed[n - 1]);
            assert(sg_table(removed)[n - 1] == q);
        }
    }
}

proof fn lemma_condition_is_ref(m: NodeMeta, n: int)
    requires
        all_below(meta_refs(m), n),
    ensures
        m.gate_branches is Some ==> m.gate_branches->0.condition_input.0 < n,
{
    if let Some(gb) = m.gate_branches {
        let a = crate::ir::refs::opt_ref(m.await_event_source) + crate::ir::refs::opt_ref(
            m.writeback_target,
        );
        assert(gate_refs(m.gate_branches)[0] == gb.condition_input);
        assert(meta_refs(m)[a.len() as int] == gb.condition_input);
    }
}

proof fn lemma_kept_count(removed: Seq<bool>, n: int)
    requires
        0 <= n <= removed.len(),
    ensures
        kept_before(removed, n) <= n,
    decreases n,
{
    if n > 0 {
        lemma_kept_count(removed, n - 1);
    }
}

/// What the assembled graph is before node ids are mapped.
spec fn assembled(
    g: &DataFlowGraph,
    b: &DataFlowGraph,
    dead: Set<u32>,
    redirect: Map<u32, u32>,
    dead_sgs: Set<u32>,
) -> bool {
    let lay = g.layout(dead, redirect);
    let removed = g.dropped(dead, redirect, dead_sgs);
    let sgs = sg_table(removed);
    &&& g.nodes_rebuilt(b, dead, redirect)
    &&& b.meta@.len() == lay.len()
    &&& forall|k: int|
        0 <= k < lay.len() ==> meta_renumbered(g.meta@[lay[k]], #[trigger] b.meta@[k], sgs)
    &&& b.subgraphs@.len() == kept_before(removed, removed.len() as int)
    &&& forall|s: int|
        0 <= s < removed.len() && !removed[s] ==> sg_renumbered(
            #[trigger] g.subgraphs@[s],
            b.subgraphs@[sgs[s] as int],
            sgs,
            g.new_range(dead, redirect, s),
        )
}

/// The assembled graph's references are in the domain of the node table.
proof fn lemma_assembled_door(
    g: &DataFlowGraph,
    b: &DataFlowGraph,
    dead: Set<u32>,
    redirect: Map<u32, u32>,
    dead_sgs: Set<u32>,
)
    requires
        g.rebuildable(dead, redirect, dead_sgs),
        assembled(g, b, dead, redirect, dead_sgs),
    ensures
        b.door_below(g.nodes@.len() as int),
        forall|k: int|
            0 <= k < b.meta@.len() ==> g.all_land(dead, redirect, #[trigger] meta_refs(b.meta@[k])),
        forall|q: int|
            0 <= q < b.subgraphs@.len() ==> g.all_land(
                dead,
                redirect,
                #[trigger] sg_refs(b.subgraphs@[q]),
            ),
{
    let lay = g.layout(dead, redirect);
    let removed = g.dropped(dead, redirect, dead_sgs);
    let sgs = sg_table(removed);
    law_layout_numbers_what_stays(g, dead, redirect);
    assert forall|k: int| 0 <= k < b.meta@.len() implies g.all_land(
        dead,
        redirect,
        #[trigger] meta_refs(b.meta@[k]),
    ) && all_below(meta_refs(b.meta@[k]), g.nodes@.len() as int) by {
        assert(lay.contains(lay[k]));
        assert(meta_renumbered(g.meta@[lay[k]], b.meta@[k], sgs));
        lemma_meta_refs_renumbered(g.meta@[lay[k]], b.meta@[k], sgs);
        lemma_landing_images(g, dead, redirect, meta_refs(b.meta@[k]));
    }
    assert forall|q: int| 0 <= q < b.subgraphs@.len() implies g.all_land(
        dead,
        redirect,
        #[trigger] sg_refs(b.subgraphs@[q]),
    ) && all_below(sg_refs(b.subgraphs@[q]), g.nodes@.len() as int) by {
        lemma_sg_table_onto(removed, removed.len() as int, q);
        let s = choose|s: int|
            0 <= s < removed.len() && !removed[s] && #[trigger] sgs[s] == q;
        let range = g.new_range(dead, redirect, s);
        assert(sg_renumbered(g.subgraphs@[s], b.subgraphs@[q], sgs, range));
        lemma_sg_refs_renumbered(g.subgraphs@[s], b.subgraphs@[q], sgs, range);
        lemma_landing_images(g, dead, redirect, sg_refs(b.subgraphs@[q]));
    }
}

/// The mapped graph is well-formed.
proof fn lemma_mapped_wf(
    g: &DataFlowGraph,
    b: &DataFlowGraph,
    c: &DataFlowGraph,
    dead: Set<u32>,
    redirect: Map<u32, u32>,
    dead_sgs: Set<u32>,
)
    requires
        g.rebuildable(dead, redirect, dead_sgs),
        assembled(g, b, dead, redirect, dead_sgs),
        c.nodes@ == b.nodes@,
        c.inputs_pool@ == b.inputs_pool@,
        c.meta@.len() == b.meta@.len(),
        forall|k: int|
            0 <= k < b.meta@.len() ==> meta_mapped(
                #[trigger] b.meta@[k],
                c.meta@[k],
                g.node_table(dead, redirect),
            ),
        c.subgraphs@.len() == b.subgraphs@.len(),
        forall|q: int|
            0 <= q < b.subgraphs@.len() ==> sg_mapped(
                #[trigger] b.subgraphs@[q],
                c.subgraphs@[q],
                g.node_table(dead, redirect),
            ),
    ensures
        c.wf(),
        c.inputs_wf(),
        c.conditions_wf(),
        c.subgraphs@.len() <= u32::MAX,
        g.sg_ids_wf() ==> c.sg_ids_wf(),
        c.door_below(c.nodes@.len() as int),
{
    let lay = g.layout(dead, redirect);
    let table = g.node_table(dead, redirect);
    let removed = g.dropped(dead, redirect, dead_sgs);
    let sgs = sg_table(removed);
    let n = c.nodes@.len() as int;
    law_layout_numbers_what_stays(g, dead, redirect);
    lemma_layout_len(g, dead, redirect);
    lemma_assembled_door(g, b, dead, redirect, dead_sgs);
    assert forall|k: int| #![trigger c.nodes@[k]] 0 <= k < n implies c.nodes@[k].inputs_offset
        + c.nodes@[k].input_count <= c.inputs_pool@.len() by {
        assert(b.nodes@[k] == c.nodes@[k]);
        lemma_input_sum_grows(g, lay, k + 1, lay.len() as int);
    }
    assert forall|i: int, j: int| #![trigger c.inputs_of(i)[j]]
        0 <= i < n && 0 <= j < c.inputs_of(i).len() implies c.inputs_of(i)[j].0 < n by {
        assert(b.nodes@[i] == c.nodes@[i]);
        assert(c.inputs_of(i) == b.inputs_of(i));
        assert(lay.contains(lay[i]));
        assert(stays(dead, redirect, lay[i]));
        assert(g.nodes@[lay[i]] == g.nodes@[lay[i]]);
        lemma_landing_images(g, dead, redirect, g.inputs_of(lay[i]));
        let image = ids_image(table, g.inputs_of(lay[i]));
        assert(image[j].0 < lay.len());
    }
    assert forall|k: int| 0 <= k < c.meta@.len() implies all_below(
        #[trigger] meta_refs(c.meta@[k]),
        n,
    ) by {
        assert(meta_mapped(b.meta@[k], c.meta@[k], table));
        law_doors_agree_on_metadata(b.meta@[k], c.meta@[k], by_table(table));
        lemma_image_by_table(table, meta_refs(b.meta@[k]), meta_refs(c.meta@[k]));
        lemma_landing_images(g, dead, redirect, meta_refs(b.meta@[k]));
    }
    assert forall|k: int| #![trigger c.meta@[k]]
        0 <= k < c.meta@.len() && c.meta@[k].gate_branches is Some implies (
    c.meta@[k].gate_branches->0).condition_input.0 < n by {
        assert(all_below(meta_refs(c.meta@[k]), n));
        lemma_condition_is_ref(c.meta@[k], n);
    }
    lemma_kept_count(removed, removed.len() as int);
    assert forall|q: int| 0 <= q < c.subgraphs@.len() implies all_below(
        #[trigger] sg_refs(c.subgraphs@[q]),
        n,
    ) by {
        assert(sg_mapped(b.subgraphs@[q], c.subgraphs@[q], table));
        law_doors_agree_on_anchors(b.subgraphs@[q], c.subgraphs@[q], by_table(table));
        lemma_image_by_table(table, sg_refs(b.subgraphs@[q]), sg_refs(c.subgraphs@[q]));
        lemma_landing_images(g, dead, redirect, sg_refs(b.subgraphs@[q]));
    }
    assert forall|q: int| #![trigger c.subgraphs@[q]]
        g.sg_ids_wf() && 0 <= q < c.subgraphs@.len() implies c.subgraphs@[q].id.0 == q by {
        lemma_sg_table_onto(removed, removed.len() as int, q);
        let s = choose|s: int|
            0 <= s < removed.len() && !removed[s] && #[trigger] sgs[s] == q;
        assert(sg_renumbered(
            g.subgraphs@[s],
            b.subgraphs@[q],
            sgs,
            g.new_range(dead, redirect, s),
        ));
        assert(sg_mapped(b.subgraphs@[q], c.subgraphs@[q], table));
    }
}

impl DataFlowGraph {
    /// Compacts the graph: drops the dead and the redirected nodes, maps every
    /// reference to what stays, drops the removable subgraphs that nothing
    /// refers to, renumbers, and recomputes downstream edges and nesting.
    /// Returns the new id of every node that stays.
    #[verifier::rlimit(40)]
    #[verifier::spinoff_prover]
    pub fn rebuild(&mut self, dead: &IdSet, redirect: &IdMap, dead_sgs: &IdSet) -> (r: Vec<
        Option<NodeId>,
    >)
        requires
            old(self).rebuildable(dead@, redirect@, dead_sgs@),
        ensures
            r@ == old(self).old_to_new(dead@, redirect@),
            old(self).rebuilt(final(self), dead@, redirect@, dead_sgs@),
            final(self).wf(),
            final(self).inputs_wf(),
            final(self).conditions_wf(),
            old(self).sg_ids_wf() ==> final(self).sg_ids_wf(),
            final(self).door_below(final(self).nodes@.len() as int),
    {
        let ghost g = *self;
        let ghost lay = g.layout(dead@, redirect@);
        let ghost table_spec = g.node_table(dead@, redirect@);
        proof {
            law_layout_numbers_what_stays(&g, dead@, redirect@);
            lemma_layout_len(&g, dead@, redirect@);
        }
        let owners = self.node_owners();
        let (o2n, n2o) = self.number_nodes(dead, redirect, &owners);
        let table = self.build_node_table(dead, redirect, &o2n, &n2o);
        let (nodes, inputs) = self.compact_nodes(dead, redirect, &n2o, &table);
        let mut ranges: Vec<(NodeId, NodeId)> = Vec::new();
        let count = self.subgraphs.len();
        let mut s: usize = 0;
        while s < count
            invariant
                *self == g,
                s <= count == g.subgraphs@.len(),
                g.nodes@.len() <= u32::MAX,
                owners@.len() == g.nodes@.len(),
                forall|i: int| 0 <= i < g.nodes@.len() ==> #[trigger] owners@[i] == g.owner_of(i),
                o2n@.len() == g.nodes@.len(),
                numbering(o2n@, n2o@),
                positions(n2o@) == g.layout(dead@, redirect@),
                ranges@.len() == s,
                forall|q: int|
                    0 <= q < s ==> #[trigger] ranges@[q] == g.new_range(dead@, redirect@, q),
            decreases count - s,
        {
            let range = self.compute_new_range(s, dead, redirect, &owners, &o2n, &n2o);
            ranges.push(range);
            s = s + 1;
        }
        assert forall|k: int| 0 <= k < n2o@.len() implies (#[trigger] n2o@[k]) < g.meta@.len() by {
            assert(n2o@[k] < o2n@.len());
        }
        let removed = self.dropped_subgraphs(&n2o, dead_sgs);
        assert(removed@ =~= g.dropped(dead@, redirect@, dead_sgs@));
        let sgs = build_sg_table(&removed);
        let some_removed = any_true(&removed);

        let metas = take_metas(&mut self.meta, &n2o, &sgs);
        self.meta = metas;
        self.nodes = nodes;
        self.inputs_pool.data = inputs;
        let mut old_sgs: Vec<SubGraph> = Vec::new();
        core::mem::swap(&mut self.subgraphs, &mut old_sgs);
        self.subgraphs = keep_subgraphs(old_sgs, &removed, &sgs, &ranges);
        self.entry_subgraph = look_up_opt_sg(&sgs, self.entry_subgraph);
        renumber_dispatch(&mut self.vtable_fallback_dispatch, &sgs);
        if some_removed {
            if self.sg_debug_names.len() > 0 {
                self.sg_debug_names = keep_names(&self.sg_debug_names, &removed);
            }
            self.linear_plans = Vec::new();
            self.sg_initial_pending = Vec::new();
            self.sg_initial_seed = Vec::new();
        }
        let ghost b = *self;
        proof {
            assert(lay.len() == n2o@.len());
            assert(g.nodes_rebuilt(&b, dead@, redirect@)) by {
                assert forall|k: int| #![trigger b.nodes@[k]] 0 <= k < lay.len() implies {
                    &&& b.nodes@[k] == Node {
                        inputs_offset: g.input_sum(lay, k) as u32,
                        ..g.nodes@[lay[k]]
                    }
                    &&& b.inputs_of(k) == ids_image(table_spec, g.inputs_of(lay[k]))
                } by {
                    lemma_input_sum_grows(&g, lay, k, lay.len() as int);
                    assert(b.nodes@[k] == nodes@[k]);
                }
            }
            assert forall|k: int| 0 <= k < lay.len() implies meta_renumbered(
                g.meta@[lay[k]],
                #[trigger] b.meta@[k],
                sgs@,
            ) by {
                assert(lay[k] == n2o@[k]);
            }
            assert(assembled(&g, &b, dead@, redirect@, dead_sgs@));
            lemma_assembled_door(&g, &b, dead@, redirect@, dead_sgs@);
        }
        let new_id = |_site: NodeRefSite, _owner: u32, id: NodeId| -> (r: NodeId)
            requires
                id.0 < table@.len(),
            ensures
                r == table@[id.0 as int],
            { table[id.0 as usize] };
        assert(b.door_accepted(new_id)) by {
            assert forall|i: int| 0 <= i < b.meta@.len() implies accepts(
                new_id,
                NodeRefSite::NodeMeta,
                i as u32,
                #[trigger] meta_refs(b.meta@[i]),
            ) by {
                assert(all_below(meta_refs(b.meta@[i]), table@.len() as int));
            }
            assert forall|q: int| 0 <= q < b.subgraphs@.len() implies accepts(
                new_id,
                NodeRefSite::SgAnchor,
                q as u32,
                #[trigger] sg_refs(b.subgraphs@[q]),
            ) by {
                assert(all_below(sg_refs(b.subgraphs@[q]), table@.len() as int));
            }
        }
        self.map_node_refs(new_id);
        let ghost c = *self;
        proof {
            assert forall|k: int| 0 <= k < b.meta@.len() implies meta_mapped(
                #[trigger] b.meta@[k],
                c.meta@[k],
                table_spec,
            ) by {
                let rel = answers(new_id, NodeRefSite::NodeMeta, k as u32);
                lemma_meta_weaken(b.meta@[k], c.meta@[k], rel, by_table(table_spec));
            }
            assert forall|q: int| 0 <= q < b.subgraphs@.len() implies sg_mapped(
                #[trigger] b.subgraphs@[q],
                c.subgraphs@[q],
                table_spec,
            ) by {
                let rel = answers(new_id, NodeRefSite::SgAnchor, q as u32);
                lemma_sg_weaken(b.subgraphs@[q], c.subgraphs@[q], rel, by_table(table_spec));
            }
            lemma_mapped_wf(&g, &b, &c, dead@, redirect@, dead_sgs@);
        }
        self.compute_nested_ranges();
        let ghost d = *self;
        proof {
            lemma_nested_frame_graph(&c, &d);
        }
        self.compute_downstreams();
        proof {
            assert forall|k: int| 0 <= k < lay.len() implies meta_rebuilt(
                g.meta@[lay[k]],
                #[trigger] self.meta@[k],
                sgs@,
                table_spec,
            ) by {
                assert(meta_renumbered(g.meta@[lay[k]], b.meta@[k], sgs@));
                assert(meta_mapped(b.meta@[k], c.meta@[k], table_spec));
            }
            assert forall|q: int| 0 <= q < removed@.len() && !removed@[q] implies sg_rebuilt(
                #[trigger] g.subgraphs@[q],
                self.subgraphs@[sgs@[q] as int],
                sgs@,
                table_spec,
                g.new_range(dead@, redirect@, q),
            ) by {
                law_renumbering_keeps_order(removed@, q, q);
                let at = sgs@[q] as int;
                assert(sg_renumbered(
                    g.subgraphs@[q],
                    b.subgraphs@[at],
                    sgs@,
                    g.new_range(dead@, redirect@, q),
                ));
                assert(sg_mapped(b.subgraphs@[at], c.subgraphs@[at], table_spec));
                assert(d.subgraphs@[at] == (SubGraph {
                    nested_ranges: d.subgraphs@[at].nested_ranges,
                    ..c.subgraphs@[at]
                }));
            }
            assert(o2n@ =~= g.old_to_new(dead@, redirect@)) by {
                assert forall|i: int| 0 <= i < o2n@.len() implies o2n@[i] == g.old_to_new(
                    dead@,
                    redirect@,
                )[i] by {
                    lemma_numbering_is_layout(o2n@, n2o@, i);
                }
            }
            lemma_nested_frame_graph(&c, self);
        }
        o2n
    }
}

/// Whether a flag is set.
pub fn any_true(flags: &Vec<bool>) -> (r: bool)
    ensures
        r == exists|s: int| 0 <= s < flags@.len() && #[trigger] flags@[s],
{
    let mut i: usize = 0;
    while i < flags.len()
        invariant
            i <= flags@.len(),
            forall|s: int| 0 <= s < i ==> !#[trigger] flags@[s],
        decreases flags@.len() - i,
    {
        if flags[i] {
            assert(flags@[i as int]);
            return true;
        }
        i = i + 1;
    }
    false
}

/// Recomputing the nesting changes nothing else.
proof fn lemma_nested_frame_graph(c: &DataFlowGraph, d: &DataFlowGraph)
    requires
        c.wf(),
        c.inputs_wf(),
        c.conditions_wf(),
        c.door_below(c.nodes@.len() as int),
        nesting_recomputed(c.subgraphs@, d.subgraphs@),
        d.nodes@ == c.nodes@,
        d.inputs_pool@ == c.inputs_pool@,
        d.meta@ == c.meta@,
    ensures
        d.wf(),
        d.inputs_wf(),
        d.conditions_wf(),
        c.sg_ids_wf() ==> d.sg_ids_wf(),
        d.door_below(d.nodes@.len() as int),
        forall|q: int|
            0 <= q < d.subgraphs@.len() ==> (#[trigger] d.subgraphs@[q]).nested_ranges@
                == nested_ranges_of(d.subgraphs@, q),
{
    assert forall|i: int, j: int| #![trigger d.inputs_of(i)[j]]
        0 <= i < d.nodes@.len() && 0 <= j < d.inputs_of(i).len() implies d.inputs_of(i)[j].0
        < d.nodes@.len() by {
        assert(c.inputs_of(i)[j] == d.inputs_of(i)[j]);
    }
    assert forall|q: int| 0 <= q < d.subgraphs@.len() implies all_below(
        #[trigger] sg_refs(d.subgraphs@[q]),
        d.nodes@.len() as int,
    ) by {
        assert(all_below(sg_refs(c.subgraphs@[q]), c.nodes@.len() as int));
    }
    assert forall|q: int| 0 <= q < d.subgraphs@.len() implies (
    #[trigger] d.subgraphs@[q]).nested_ranges@ == nested_ranges_of(d.subgraphs@, q) by {
        lemma_nesting_frame(c.subgraphs@, d.subgraphs@, q);
    }
}

// ---- laws ------------------------------------------------------------------

/// Compaction moves every retained node and changes nothing of what it does. The
/// map gives each retained node a place of its own, and nothing else one. There
/// the node has its kind, compute function and constant,
/// and as its inputs the new places of the nodes that its inputs stand for.
pub proof fn law_compaction_moves_nodes(
    g: &DataFlowGraph,
    new: &DataFlowGraph,
    dead: Set<u32>,
    redirect: Map<u32, u32>,
    dead_sgs: Set<u32>,
    i: int,
)
    requires
        g.rebuildable(dead, redirect, dead_sgs),
        g.rebuilt(new, dead, redirect, dead_sgs),
        0 <= i < g.nodes@.len(),
    ensures
        g.old_to_new(dead, redirect)[i] is Some <==> !dead.contains(i as u32) && !redirect.contains_key(i as u32),
        g.old_to_new(dead, redirect)[i] is Some ==> {
            let k = (g.old_to_new(dead, redirect)[i]->0).0 as int;
            &&& k < new.nodes@.len()
            &&& new.nodes@[k].kind == g.nodes@[i].kind
            &&& new.nodes@[k].compute_fn == g.nodes@[i].compute_fn
            &&& new.meta@[k].const_value == g.meta@[i].const_value
            &&& new.meta@[k].writeback_target is Some <==> g.meta@[i].writeback_target is Some
            &&& new.meta@[k].global_load_slot == g.meta@[i].global_load_slot
            &&& new.meta@[k].global_store_slot == g.meta@[i].global_store_slot
            &&& new.meta@[k].tail_call == g.meta@[i].tail_call
            &&& new.inputs_of(k).len() == g.inputs_of(i).len()
            &&& forall|j: int| #![trigger g.inputs_of(i)[j]]
                0 <= j < g.inputs_of(i).len() ==> g.old_to_new(dead, redirect)[resolved(
                    redirect,
                    g.inputs_of(i)[j].0,
                ) as int] == Some(new.inputs_of(k)[j])
        },
        forall|x: int, y: int| #![trigger g.old_to_new(dead, redirect)[x], g.old_to_new(dead, redirect)[y]]
            0 <= x < g.nodes@.len() && 0 <= y < g.nodes@.len() && x != y && g.old_to_new(dead, redirect)[x] is Some
                ==> g.old_to_new(dead, redirect)[x] != g.old_to_new(dead, redirect)[y],
{
    let layout = g.layout(dead, redirect);
    let o2n = g.old_to_new(dead, redirect);
    let table = g.node_table(dead, redirect);
    law_layout_numbers_what_stays(g, dead, redirect);
    lemma_layout_len(g, dead, redirect);
    assert(layout.contains(i) <==> stays(dead, redirect, i));
    if layout.contains(i) {
        let k = layout.index_of(i);
        assert(layout[k] == i);
        assert(new.nodes@[k] == new.nodes@[k]);
        assert(new.nodes@[k].compute_fn == g.nodes@[layout[k]].compute_fn);
        assert(meta_rebuilt(g.meta@[layout[k]], new.meta@[k], sg_table(g.dropped(dead, redirect, dead_sgs)), table));
        assert forall|j: int| #![trigger g.inputs_of(i)[j]] 0 <= j < g.inputs_of(i).len() implies o2n[resolved(
            redirect,
            g.inputs_of(i)[j].0,
        ) as int] == Some(new.inputs_of(k)[j]) by {
            let x = g.inputs_of(i)[j];
            assert(g.nodes@[i] == g.nodes@[i]);
            assert(g.all_land(dead, redirect, g.inputs_of(i)));
            assert(g.lands(dead, redirect, x));
            let r = resolved(redirect, x.0) as int;
            assert(layout.contains(r) <==> 0 <= r < g.nodes@.len() && stays(dead, redirect, r));
            assert(new.inputs_of(k)[j] == table[x.0 as int]);
        }
    }
    assert forall|x: int, y: int| #![trigger o2n[x], o2n[y]]
        0 <= x < g.nodes@.len() && 0 <= y < g.nodes@.len() && x != y && o2n[x] is Some implies o2n[x] != o2n[y] by {
        if o2n[y] is Some {
            assert(layout[layout.index_of(x)] == x);
            assert(layout[layout.index_of(y)] == y);
        }
    }
}

/// Every place after the compaction is that of a node before it.
pub proof fn law_compaction_leaves_no_gap(
    g: &DataFlowGraph,
    new: &DataFlowGraph,
    dead: Set<u32>,
    redirect: Map<u32, u32>,
    dead_sgs: Set<u32>,
    k: u32,
) -> (x: int)
    requires
        g.wf(),
        g.rebuilt(new, dead, redirect, dead_sgs),
        k < new.nodes@.len(),
    ensures
        0 <= x < g.nodes@.len(),
        !dead.contains(x as u32) && !redirect.contains_key(x as u32),
        g.old_to_new(dead, redirect)[x] == Some(NodeId(k)),
{
    let layout = g.layout(dead, redirect);
    law_layout_numbers_what_stays(g, dead, redirect);
    lemma_layout_len(g, dead, redirect);
    let x = layout[k as int];
    assert(layout.contains(x));
    assert(layout[layout.index_of(x)] == x);
    x
}

/// Compaction keeps the subgraphs that are not dropped: at the number of those
/// kept in front of it, each has its loop kind, its function and loop renumbered,
/// and as its return, entry and condition the new places of what these stand for.
pub proof fn law_compaction_keeps_subgraphs(
    g: &DataFlowGraph,
    new: &DataFlowGraph,
    dead: Set<u32>,
    redirect: Map<u32, u32>,
    dead_sgs: Set<u32>,
    s: int,
)
    requires
        g.rebuildable(dead, redirect, dead_sgs),
        g.rebuilt(new, dead, redirect, dead_sgs),
        0 <= s < g.subgraphs@.len() <= u32::MAX,
        !g.dropped(dead, redirect, dead_sgs)[s],
    ensures
        ({
            let removed = g.dropped(dead, redirect, dead_sgs);
            let t = kept_before(removed, s) as int;
            let a = g.subgraphs@[s];
            let b = new.subgraphs@[t];
            let o2n = g.old_to_new(dead, redirect);
            &&& t < new.subgraphs@.len()
            &&& b.loop_kind == a.loop_kind && b.has_suspend == a.has_suspend && b.upvalue_count == a.upvalue_count
            &&& a.function_id < removed.len() && !removed[a.function_id as int] ==> b.function_id == kept_before(
                removed,
                a.function_id as int,
            )
            &&& a.loop_parent_sg is Some <==> b.loop_parent_sg is Some
            &&& b.node_range == g.new_range(dead, redirect, s)
            &&& o2n[resolved(redirect, a.return_node.0) as int] == Some(b.return_node)
            &&& o2n[resolved(redirect, a.entry_node.0) as int] == Some(b.entry_node)
            &&& a.cond_node is Some <==> b.cond_node is Some
            &&& a.cond_node matches Some(c) ==> o2n[resolved(redirect, c.0) as int] == b.cond_node
        }),
{
    let removed = g.dropped(dead, redirect, dead_sgs);
    let sgs = sg_table(removed);
    let table = g.node_table(dead, redirect);
    let layout = g.layout(dead, redirect);
    let a = g.subgraphs@[s];
    let b = new.subgraphs@[sgs[s] as int];
    law_layout_numbers_what_stays(g, dead, redirect);
    law_renumbering_keeps_order(removed, s, s);
    if a.function_id < removed.len() && !removed[a.function_id as int] {
        law_renumbering_keeps_order(removed, a.function_id as int, a.function_id as int);
    }
    assert(kept_before(removed, s) <= s) by {
        lemma_kept_before_is_below(removed, s);
    }
    assert(sgs[s] == kept_before(removed, s));
    if a.function_id < removed.len() {
        lemma_kept_before_is_below(removed, a.function_id as int);
    }
    assert(sg_rebuilt(a, b, sgs, table, g.new_range(dead, redirect, s)));
    let (m, r) = choose|m: SubGraph, r: SubGraph|
        sg_renumbered(a, m, sgs, g.new_range(dead, redirect, s)) && sg_mapped(m, r, table) && b == (SubGraph {
            nested_ranges: b.nested_ranges,
            ..r
        });
    assert(g.all_land(dead, redirect, sg_refs(a)));
    crate::ir::refs::law_anchors_are_listed(a, a.return_node);
    crate::ir::refs::law_anchors_are_listed(a, a.entry_node);
    lemma_lands_at(g, dead, redirect, sg_refs(a), a.return_node);
    lemma_lands_at(g, dead, redirect, sg_refs(a), a.entry_node);
    if let Some(c) = a.cond_node {
        crate::ir::refs::law_anchors_are_listed(a, c);
        lemma_lands_at(g, dead, redirect, sg_refs(a), c);
    }
}

proof fn lemma_kept_before_is_below(removed: Seq<bool>, i: int)
    requires
        0 <= i <= removed.len(),
    ensures
        kept_before(removed, i) <= i,
    decreases i,
{
    if i > 0 {
        lemma_kept_before_is_below(removed, i - 1);
    }
}

proof fn lemma_lands_at(g: &DataFlowGraph, dead: Set<u32>, redirect: Map<u32, u32>, ids: Seq<NodeId>, x: NodeId)
    requires
        g.nodes@.len() <= u32::MAX,
        g.all_land(dead, redirect, ids),
        ids.contains(x),
    ensures
        g.old_to_new(dead, redirect)[resolved(redirect, x.0) as int] == Some(g.node_table(dead, redirect)[x.0 as int]),
{
    law_layout_numbers_what_stays(g, dead, redirect);
    let layout = g.layout(dead, redirect);
    let k = choose|k: int| 0 <= k < ids.len() && ids[k] == x;
    assert(g.lands(dead, redirect, ids[k]));
    let r = resolved(redirect, x.0) as int;
    assert(layout.contains(r) <==> 0 <= r < g.nodes@.len() && stays(dead, redirect, r));
}

} // verus!
