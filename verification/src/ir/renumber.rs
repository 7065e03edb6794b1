//! Renumbering of subgraphs after some of them are dropped.

use std::sync::Arc;

use vstd::prelude::*;

use crate::ir::graph::VtableEntry;
use crate::ir::meta::{NodeMeta, NO_OWNER};
use crate::ir::types::{
    ClosureInfo, DeferEntry, GateBranch, GateBranches, LazyConstructInfo, NodeId, PartialInfo,
    ResetPlan, SelectBranch, SelectInfo, SubGraph, SubGraphId, TraitConstructInfo,
    TraitMethodEntry,
};

verus! {

/// Number of subgraphs kept among the first `i`.
pub open spec fn kept_before(removed: Seq<bool>, i: int) -> nat
    decreases i,
{
    if i <= 0 {
        0
    } else {
        kept_before(removed, i - 1) + if removed[i - 1] {
            0nat
        } else {
            1nat
        }
    }
}

/// New id of every subgraph: its position among the kept ones, `NO_OWNER` for
/// a dropped one.
pub open spec fn sg_table(removed: Seq<bool>) -> Seq<u32> {
    Seq::new(
        removed.len(),
        |i: int|
            if removed[i] {
                NO_OWNER
            } else {
                kept_before(removed, i) as u32
            },
    )
}

/// New id of a subgraph; an id outside the table stays.
pub open spec fn sg_at(table: Seq<u32>, id: u32) -> u32 {
    if id < table.len() {
        table[id as int]
    } else {
        id
    }
}

pub open spec fn opt_sg_at(table: Seq<u32>, o: Option<SubGraphId>) -> Option<SubGraphId> {
    match o {
        None => None,
        Some(id) => Some(SubGraphId(sg_at(table, id.0))),
    }
}

pub open spec fn gate_renumbered(
    a: Option<Arc<GateBranches>>,
    b: Option<Arc<GateBranches>>,
    table: Seq<u32>,
) -> bool {
    match (a, b) {
        (None, None) => true,
        (Some(x), Some(y)) => {
            &&& y.condition_input == x.condition_input
            &&& y.capture == x.capture
            &&& y.branches@.len() == x.branches@.len()
            &&& forall|k: int|
                0 <= k < x.branches@.len() ==> {
                    &&& y.branches@[k].when == (#[trigger] x.branches@[k]).when
                    &&& y.branches@[k].subgraph.0 == sg_at(table, x.branches@[k].subgraph.0)
                    &&& y.branches@[k].params@ == x.branches@[k].params@
                }
        },
        _ => false,
    }
}

pub open spec fn select_renumbered(
    a: Option<Arc<SelectInfo>>,
    b: Option<Arc<SelectInfo>>,
    table: Seq<u32>,
) -> bool {
    match (a, b) {
        (None, None) => true,
        (Some(x), Some(y)) => y.branches@ == Seq::new(
            x.branches@.len(),
            |k: int|
                SelectBranch {
                    subgraph_id: SubGraphId(sg_at(table, x.branches@[k].subgraph_id.0)),
                    ..x.branches@[k]
                },
        ),
        _ => false,
    }
}

pub open spec fn trait_renumbered(
    a: Option<Arc<TraitConstructInfo>>,
    b: Option<Arc<TraitConstructInfo>>,
    table: Seq<u32>,
) -> bool {
    match (a, b) {
        (None, None) => true,
        (Some(x), Some(y)) => {
            &&& y.trait_name == x.trait_name
            &&& y.method_names@ == x.method_names@
            &&& y.methods@ == Seq::new(
                x.methods@.len(),
                |k: int|
                    TraitMethodEntry {
                        subgraph_id: SubGraphId(sg_at(table, x.methods@[k].subgraph_id.0)),
                        ..x.methods@[k]
                    },
            )
        },
        _ => false,
    }
}

/// `b` is the metadata `a` with its subgraph ids renumbered, and nothing else
/// changed.
pub open spec fn meta_renumbered(a: NodeMeta, b: NodeMeta, table: Seq<u32>) -> bool {
    &&& b == NodeMeta {
        call_target: opt_sg_at(table, a.call_target),
        closure_info: match a.closure_info {
            None => None,
            Some(c) => Some(
                ClosureInfo { subgraph_id: SubGraphId(sg_at(table, c.subgraph_id.0)), ..c },
            ),
        },
        partial_info: match a.partial_info {
            None => None,
            Some(p) => Some(
                PartialInfo { subgraph_id: SubGraphId(sg_at(table, p.subgraph_id.0)), ..p },
            ),
        },
        lazy_construct_info: match a.lazy_construct_info {
            None => None,
            Some(l) => Some(LazyConstructInfo { thunk_sg: SubGraphId(sg_at(table, l.thunk_sg.0)) }),
        },
        hoisted_owner: SubGraphId(sg_at(table, a.hoisted_owner.0)),
        trait_construct_info: b.trait_construct_info,
        gate_branches: b.gate_branches,
        select_info: b.select_info,
        ..a
    }
    &&& trait_renumbered(a.trait_construct_info, b.trait_construct_info, table)
    &&& gate_renumbered(a.gate_branches, b.gate_branches, table)
    &&& select_renumbered(a.select_info, b.select_info, table)
}

/// `b` is the reset plan `a` with its flattened condition tree cleared.
pub open spec fn plan_cleared(a: Option<ResetPlan>, b: Option<ResetPlan>) -> bool {
    match (a, b) {
        (None, None) => true,
        (Some(x), Some(y)) => {
            &&& y == ResetPlan { condition_tree_plan: y.condition_tree_plan, ..x }
            &&& y.condition_tree_plan@.len() == 0
        },
        _ => false,
    }
}

/// `b` is the subgraph `a` with its subgraph ids renumbered, the given range,
/// and a cleared reset plan.
pub open spec fn sg_renumbered(
    a: SubGraph,
    b: SubGraph,
    table: Seq<u32>,
    range: (NodeId, NodeId),
) -> bool {
    &&& b == SubGraph {
        id: SubGraphId(sg_at(table, a.id.0)),
        function_id: sg_at(table, a.function_id),
        loop_parent_sg: opt_sg_at(table, a.loop_parent_sg),
        node_range: range,
        defer_table: b.defer_table,
        reset_plan: b.reset_plan,
        ..a
    }
    &&& b.defer_table@ == Seq::new(
        a.defer_table@.len(),
        |k: int|
            DeferEntry {
                body_subgraph: SubGraphId(sg_at(table, a.defer_table@[k].body_subgraph.0)),
                ..a.defer_table@[k]
            },
    )
    &&& plan_cleared(a.reset_plan, b.reset_plan)
}

/// New id of every subgraph.
pub fn build_sg_table(removed: &Vec<bool>) -> (table: Vec<u32>)
    requires
        removed@.len() <= u32::MAX,
    ensures
        table@ == sg_table(removed@),
{
    let mut table: Vec<u32> = Vec::new();
    let mut next: u32 = 0;
    let mut i: usize = 0;
    while i < removed.len()
        invariant
            i <= removed@.len() <= u32::MAX,
            next == kept_before(removed@, i as int),
            next <= i,
            table@ == sg_table(removed@).take(i as int),
        decreases removed@.len() - i,
    {
        if removed[i] {
            table.push(NO_OWNER);
        } else {
            table.push(next);
        }
        assert(table@ =~= sg_table(removed@).take(i + 1));
        if !removed[i] {
            next = next + 1;
        }
        i = i + 1;
    }
    assert(table@ =~= sg_table(removed@));
    table
}

pub fn look_up_sg(table: &Vec<u32>, id: u32) -> (r: u32)
    ensures
        r == sg_at(table@, id),
{
    if (id as usize) < table.len() {
        table[id as usize]
    } else {
        id
    }
}

pub fn look_up_opt_sg(table: &Vec<u32>, o: Option<SubGraphId>) -> (r: Option<SubGraphId>)
    ensures
        r == opt_sg_at(table@, o),
{
    match o {
        None => None,
        Some(id) => Some(SubGraphId(look_up_sg(table, id.0))),
    }
}

fn copy_ids(ids: &Vec<NodeId>) -> (r: Vec<NodeId>)
    ensures
        r@ == ids@,
{
    let mut r: Vec<NodeId> = Vec::new();
    let mut i: usize = 0;
    while i < ids.len()
        invariant
            i <= ids@.len(),
            r@ == ids@.take(i as int),
        decreases ids@.len() - i,
    {
        r.push(ids[i]);
        assert(r@ =~= ids@.take(i + 1));
        i = i + 1;
    }
    assert(r@ =~= ids@);
    r
}

fn copy_names(names: &Vec<String>) -> (r: Vec<String>)
    ensures
        r@ == names@,
{
    let mut r: Vec<String> = Vec::new();
    let mut i: usize = 0;
    while i < names.len()
        invariant
            i <= names@.len(),
            r@ == names@.take(i as int),
        decreases names@.len() - i,
    {
        r.push(names[i].clone());
        assert(r@ =~= names@.take(i + 1));
        i = i + 1;
    }
    assert(r@ =~= names@);
    r
}

fn renumber_gate(o: &Option<Arc<GateBranches>>, table: &Vec<u32>) -> (r: Option<Arc<GateBranches>>)
    ensures
        gate_renumbered(*o, r, table@),
{
    match o {
        None => None,
        Some(g) => {
            let mut branches: Vec<GateBranch> = Vec::new();
            let mut i: usize = 0;
            while i < g.branches.len()
                invariant
                    i <= g.branches@.len(),
                    branches@.len() == i,
                    forall|k: int|
                        0 <= k < i ==> {
                            &&& branches@[k].when == (#[trigger] g.branches@[k]).when
                            &&& branches@[k].subgraph.0 == sg_at(
                                table@,
                                g.branches@[k].subgraph.0,
                            )
                            &&& branches@[k].params@ == g.branches@[k].params@
                        },
                decreases g.branches@.len() - i,
            {
                let b = &g.branches[i];
                branches.push(
                    GateBranch {
                        when: b.when,
                        subgraph: SubGraphId(look_up_sg(table, b.subgraph.0)),
                        params: copy_ids(&b.params),
                    },
                );
                i = i + 1;
            }
            let new_gate = GateBranches {
                condition_input: g.condition_input,
                branches,
                capture: g.capture,
            };
            Some(Arc::new(new_gate))
        },
    }
}

fn renumber_select(o: &Option<Arc<SelectInfo>>, table: &Vec<u32>) -> (r: Option<Arc<SelectInfo>>)
    ensures
        select_renumbered(*o, r, table@),
{
    match o {
        None => None,
        Some(s) => {
            let mut branches: Vec<SelectBranch> = Vec::new();
            let mut i: usize = 0;
            while i < s.branches.len()
                invariant
                    i <= s.branches@.len(),
                    branches@ == Seq::new(
                        i as nat,
                        |k: int|
                            SelectBranch {
                                subgraph_id: SubGraphId(
                                    sg_at(table@, s.branches@[k].subgraph_id.0),
                                ),
                                ..s.branches@[k]
                            },
                    ),
                decreases s.branches@.len() - i,
            {
                let b = s.branches[i];
                branches.push(
                    SelectBranch {
                        subgraph_id: SubGraphId(look_up_sg(table, b.subgraph_id.0)),
                        event_kind: b.event_kind,
                        event_source_node: b.event_source_node,
                    },
                );
                assert(branches@ =~= Seq::new(
                    (i + 1) as nat,
                    |k: int|
                        SelectBranch {
                            subgraph_id: SubGraphId(sg_at(table@, s.branches@[k].subgraph_id.0)),
                            ..s.branches@[k]
                        },
                ));
                i = i + 1;
            }
            Some(Arc::new(SelectInfo { branches }))
        },
    }
}

fn renumber_trait(o: &Option<Arc<TraitConstructInfo>>, table: &Vec<u32>) -> (r: Option<
    Arc<TraitConstructInfo>,
>)
    ensures
        trait_renumbered(*o, r, table@),
{
    match o {
        None => None,
        Some(t) => {
            let mut methods: Vec<TraitMethodEntry> = Vec::new();
            let mut i: usize = 0;
            while i < t.methods.len()
                invariant
                    i <= t.methods@.len(),
                    methods@ == Seq::new(
                        i as nat,
                        |k: int|
                            TraitMethodEntry {
                                subgraph_id: SubGraphId(
                                    sg_at(table@, t.methods@[k].subgraph_id.0),
                                ),
                                ..t.methods@[k]
                            },
                    ),
                decreases t.methods@.len() - i,
            {
                let m = t.methods[i];
                methods.push(
                    TraitMethodEntry {
                        subgraph_id: SubGraphId(look_up_sg(table, m.subgraph_id.0)),
                        arity: m.arity,
                        upvalue_count: m.upvalue_count,
                    },
                );
                assert(methods@ =~= Seq::new(
                    (i + 1) as nat,
                    |k: int|
                        TraitMethodEntry {
                            subgraph_id: SubGraphId(sg_at(table@, t.methods@[k].subgraph_id.0)),
                            ..t.methods@[k]
                        },
                ));
                i = i + 1;
            }
            let new_trait = TraitConstructInfo {
                trait_name: t.trait_name.clone(),
                method_names: copy_names(&t.method_names),
                methods,
            };
            Some(Arc::new(new_trait))
        },
    }
}

/// Renumbers the subgraph ids of one node's metadata.
pub fn renumber_meta(m: NodeMeta, table: &Vec<u32>) -> (r: NodeMeta)
    ensures
        meta_renumbered(m, r, table@),
{
    let mut r = m;
    r.call_target = look_up_opt_sg(table, r.call_target);
    r.closure_info = match r.closure_info {
        None => None,
        Some(c) => Some(
            ClosureInfo {
                subgraph_id: SubGraphId(look_up_sg(table, c.subgraph_id.0)),
                arity: c.arity,
                self_upvalue_idx: c.self_upvalue_idx,
            },
        ),
    };
    r.partial_info = match r.partial_info {
        None => None,
        Some(p) => Some(
            PartialInfo {
                subgraph_id: SubGraphId(look_up_sg(table, p.subgraph_id.0)),
                bound_count: p.bound_count,
            },
        ),
    };
    r.lazy_construct_info = match r.lazy_construct_info {
        None => None,
        Some(l) => Some(
            LazyConstructInfo { thunk_sg: SubGraphId(look_up_sg(table, l.thunk_sg.0)) },
        ),
    };
    r.hoisted_owner = SubGraphId(look_up_sg(table, r.hoisted_owner.0));
    r.trait_construct_info = renumber_trait(&r.trait_construct_info, table);
    r.gate_branches = renumber_gate(&r.gate_branches, table);
    r.select_info = renumber_select(&r.select_info, table);
    r
}

/// Renumbers the subgraph ids of one subgraph, gives it its new range and
/// clears its flattened condition tree.
pub fn renumber_sg(sg: SubGraph, table: &Vec<u32>, range: (NodeId, NodeId)) -> (r: SubGraph)
    ensures
        sg_renumbered(sg, r, table@, range),
{
    let mut r = sg;
    r.id = SubGraphId(look_up_sg(table, r.id.0));
    r.function_id = look_up_sg(table, r.function_id);
    r.loop_parent_sg = look_up_opt_sg(table, r.loop_parent_sg);
    r.node_range = range;
    let ghost all = Seq::new(
        sg.defer_table@.len(),
        |k: int|
            DeferEntry {
                body_subgraph: SubGraphId(sg_at(table@, sg.defer_table@[k].body_subgraph.0)),
                ..sg.defer_table@[k]
            },
    );
    let mut defers: Vec<DeferEntry> = Vec::new();
    core::mem::swap(&mut defers, &mut r.defer_table);
    let mut i: usize = 0;
    while i < defers.len()
        invariant
            i <= defers@.len() == sg.defer_table@.len() == all.len(),
            all == Seq::new(
                sg.defer_table@.len(),
                |k: int|
                    DeferEntry {
                        body_subgraph: SubGraphId(
                            sg_at(table@, sg.defer_table@[k].body_subgraph.0),
                        ),
                        ..sg.defer_table@[k]
                    },
            ),
            forall|k: int| 0 <= k < i ==> #[trigger] defers@[k] == all[k],
            forall|k: int| i <= k < defers@.len() ==> #[trigger] defers@[k] == sg.defer_table@[k],
        decreases defers@.len() - i,
    {
        assert(defers@[i as int] == sg.defer_table@[i as int]);
        let body = look_up_sg(table, defers[i].body_subgraph.0);
        let e = &mut defers[i];
        e.body_subgraph = SubGraphId(body);
        i = i + 1;
    }
    assert(defers@ =~= all);
    r.defer_table = defers;
    let mut plan: Option<ResetPlan> = None;
    core::mem::swap(&mut plan, &mut r.reset_plan);
    if let Some(mut p) = plan {
        p.condition_tree_plan = Vec::new();
        r.reset_plan = Some(p);
    }
    r
}

/// The dispatch table with its targets renumbered.
pub open spec fn dispatch_renumbered(
    a: Seq<VtableEntry>,
    b: Seq<VtableEntry>,
    table: Seq<u32>,
) -> bool {
    b == Seq::new(
        a.len(),
        |k: int| VtableEntry { target: SubGraphId(sg_at(table, a[k].target.0)), ..a[k] },
    )
}

pub fn renumber_dispatch(entries: &mut Vec<VtableEntry>, table: &Vec<u32>)
    ensures
        dispatch_renumbered(old(entries)@, final(entries)@, table@),
{
    let mut i: usize = 0;
    while i < entries.len()
        invariant
            i <= entries@.len() == old(entries)@.len(),
            forall|k: int|
                0 <= k < i ==> #[trigger] entries@[k] == (VtableEntry {
                    target: SubGraphId(sg_at(table@, old(entries)@[k].target.0)),
                    ..old(entries)@[k]
                }),
            forall|k: int| i <= k < entries@.len() ==> #[trigger] entries@[k] == old(entries)@[k],
        decreases entries@.len() - i,
    {
        assert(entries@[i as int] == old(entries)@[i as int]);
        let target = look_up_sg(table, entries[i].target.0);
        let e = &mut entries[i];
        e.target = SubGraphId(target);
        i = i + 1;
    }
    assert(entries@ =~= Seq::new(
        old(entries)@.len(),
        |k: int|
            VtableEntry {
                target: SubGraphId(sg_at(table@, old(entries)@[k].target.0)),
                ..old(entries)@[k]
            },
    ));
}

// ---- laws ------------------------------------------------------------------

proof fn lemma_kept_before_grows(removed: Seq<bool>, i: int, j: int)
    requires
        0 <= i <= j <= removed.len(),
    ensures
        kept_before(removed, i) <= kept_before(removed, j),
        i < j && !removed[i] ==> kept_before(removed, i) < kept_before(removed, j),
        kept_before(removed, j) <= j,
    decreases j,
{
    if i < j {
        lemma_kept_before_grows(removed, i, j - 1);
    } else if j > 0 {
        lemma_kept_before_grows(removed, i - 1, j - 1);
    }
}

/// Kept subgraphs are numbered without gaps, in their old order: the new ids
/// of two kept subgraphs compare as the old ones did, and each lies below the
/// number of kept subgraphs.
pub proof fn law_renumbering_keeps_order(removed: Seq<bool>, i: int, j: int)
    requires
        removed.len() <= u32::MAX,
        0 <= i < removed.len(),
        0 <= j < removed.len(),
        !removed[i],
        !removed[j],
    ensures
        sg_table(removed)[i] < kept_before(removed, removed.len() as int),
        i < j ==> sg_table(removed)[i] < sg_table(removed)[j],
        i == j <==> sg_table(removed)[i] == sg_table(removed)[j],
{
    lemma_kept_before_grows(removed, i, removed.len() as int);
    lemma_kept_before_grows(removed, j, removed.len() as int);
    if i < j {
        lemma_kept_before_grows(removed, i, j);
    } else if j < i {
        lemma_kept_before_grows(removed, j, i);
    }
}

/// If nothing is dropped, every id stays.
pub proof fn law_renumbering_nothing_dropped(removed: Seq<bool>, i: int)
    requires
        removed.len() <= u32::MAX,
        0 <= i <= removed.len(),
        forall|k: int| 0 <= k < removed.len() ==> !#[trigger] removed[k],
    ensures
        kept_before(removed, i) == i,
        i < removed.len() ==> sg_table(removed)[i] == i,
    decreases i,
{
    if i > 0 {
        law_renumbering_nothing_dropped(removed, i - 1);
    }
}

/// The number of a subgraph that stays is the number of those in front of it that
/// stay; references follow it, and nothing else of the metadata changes.
pub proof fn law_references_follow_their_subgraph(a: NodeMeta, b: NodeMeta, removed: Seq<bool>)
    requires
        meta_renumbered(a, b, sg_table(removed)),
        removed.len() <= u32::MAX,
    ensures
        a.call_target is Some <==> b.call_target is Some,
        a.call_target matches Some(t) ==> t.0 < removed.len() && !removed[t.0 as int] ==> (b.call_target->0).0
            == kept_before(removed, t.0 as int),
        a.closure_info is Some <==> b.closure_info is Some,
        a.closure_info matches Some(c) ==> c.subgraph_id.0 < removed.len() && !removed[c.subgraph_id.0 as int]
            ==> b.closure_info->0.subgraph_id.0 == kept_before(removed, c.subgraph_id.0 as int),
        a.lazy_construct_info is Some <==> b.lazy_construct_info is Some,
        a.lazy_construct_info matches Some(l) ==> l.thunk_sg.0 < removed.len() && !removed[l.thunk_sg.0 as int]
            ==> b.lazy_construct_info->0.thunk_sg.0 == kept_before(removed, l.thunk_sg.0 as int),
        a.hoisted_owner.0 < removed.len() && !removed[a.hoisted_owner.0 as int] ==> b.hoisted_owner.0 == kept_before(
            removed,
            a.hoisted_owner.0 as int,
        ),
        b.const_value == a.const_value && b.writeback_target == a.writeback_target && b.hoisted == a.hoisted,
        b.global_load_slot == a.global_load_slot && b.global_store_slot == a.global_store_slot && b.tail_call
            == a.tail_call,
        b.field_access_info == a.field_access_info && b.field_set_name == a.field_set_name,
        a.gate_branches is Some <==> b.gate_branches is Some,
        forall|k: int|
            a.gate_branches is Some && 0 <= k < a.gate_branches->0.branches@.len() && (
            #[trigger] a.gate_branches->0.branches@[k]).subgraph.0 < removed.len()
                && !removed[a.gate_branches->0.branches@[k].subgraph.0 as int] ==> {
                &&& b.gate_branches->0.branches@[k].subgraph.0 == kept_before(
                    removed,
                    a.gate_branches->0.branches@[k].subgraph.0 as int,
                )
                &&& b.gate_branches->0.branches@[k].when == a.gate_branches->0.branches@[k].when
            },
{
    assert forall|i: int| 0 <= i < removed.len() implies kept_before(removed, i) <= u32::MAX by {
        lemma_kept_before_bound(removed, i);
    }
}

proof fn lemma_kept_before_bound(removed: Seq<bool>, i: int)
    requires
        0 <= i <= removed.len(),
    ensures
        kept_before(removed, i) <= i,
    decreases i,
{
    if i > 0 {
        lemma_kept_before_bound(removed, i - 1);
    }
}

} // verus!
