//! References to subgraphs: where the graph stores subgraph ids, which
//! subgraphs a compaction keeps, and how kept ones are renumbered.

use std::sync::Arc;

use vstd::prelude::*;

use crate::fx::IdSet;
use crate::ir::graph::DataFlowGraph;
use crate::ir::layout::positions;
use crate::ir::meta::{NodeMeta, NO_OWNER};
use crate::ir::types::{GateBranches, SelectInfo, SubGraph, SubGraphId, TraitConstructInfo};

verus! {

// ---- enumeration -----------------------------------------------------------

pub open spec fn trait_sgs(o: Option<Arc<TraitConstructInfo>>) -> Seq<SubGraphId> {
    match o {
        None => Seq::empty(),
        Some(t) => Seq::new(t.methods@.len(), |k: int| t.methods@[k].subgraph_id),
    }
}

pub open spec fn gate_sgs(o: Option<Arc<GateBranches>>) -> Seq<SubGraphId> {
    match o {
        None => Seq::empty(),
        Some(g) => Seq::new(g.branches@.len(), |k: int| g.branches@[k].subgraph),
    }
}

pub open spec fn select_sgs(o: Option<Arc<SelectInfo>>) -> Seq<SubGraphId> {
    match o {
        None => Seq::empty(),
        Some(s) => Seq::new(s.branches@.len(), |k: int| s.branches@[k].subgraph_id),
    }
}

pub open spec fn opt_sg(o: Option<SubGraphId>) -> Seq<SubGraphId> {
    match o {
        None => Seq::empty(),
        Some(id) => seq![id],
    }
}

/// The subgraphs that a node's metadata refers to: call target, closure,
/// partial application, lazy thunk, trait methods, gate and select branches.
pub open spec fn meta_sgs(m: NodeMeta) -> Seq<SubGraphId> {
    opt_sg(m.call_target) + opt_sg(
        match m.closure_info {
            None => None,
            Some(c) => Some(c.subgraph_id),
        },
    ) + opt_sg(
        match m.partial_info {
            None => None,
            Some(p) => Some(p.subgraph_id),
        },
    ) + opt_sg(
        match m.lazy_construct_info {
            None => None,
            Some(l) => Some(l.thunk_sg),
        },
    ) + trait_sgs(m.trait_construct_info) + gate_sgs(m.gate_branches) + select_sgs(m.select_info)
}

/// The subgraphs that a subgraph is linked to: its function, its loop, and
/// the bodies of its defer blocks.
pub open spec fn sg_links(sg: SubGraph) -> Seq<u32> {
    seq![sg.function_id] + match sg.loop_parent_sg {
        None => Seq::<u32>::empty(),
        Some(p) => seq![p.0],
    } + Seq::new(sg.defer_table@.len(), |k: int| sg.defer_table@[k].body_subgraph.0)
}

fn push_opt_sg(o: Option<SubGraphId>, out: &mut Vec<SubGraphId>)
    ensures
        final(out)@ == old(out)@ + opt_sg(o),
{
    if let Some(id) = o {
        out.push(id);
    }
    assert(out@ =~= old(out)@ + opt_sg(o));
}

/// The subgraphs that a node's metadata refers to.
pub fn meta_subgraphs(m: &NodeMeta) -> (out: Vec<SubGraphId>)
    ensures
        out@ == meta_sgs(*m),
{
    let mut out: Vec<SubGraphId> = Vec::new();
    push_opt_sg(m.call_target, &mut out);
    push_opt_sg(
        match m.closure_info {
            None => None,
            Some(c) => Some(c.subgraph_id),
        },
        &mut out,
    );
    push_opt_sg(
        match m.partial_info {
            None => None,
            Some(p) => Some(p.subgraph_id),
        },
        &mut out,
    );
    push_opt_sg(
        match m.lazy_construct_info {
            None => None,
            Some(l) => Some(l.thunk_sg),
        },
        &mut out,
    );
    let ghost base = out@;
    if let Some(t) = &m.trait_construct_info {
        let mut k: usize = 0;
        while k < t.methods.len()
            invariant
                m.trait_construct_info == Some(*t),
                k <= t.methods@.len(),
                out@ == base + trait_sgs(m.trait_construct_info).take(k as int),
            decreases t.methods@.len() - k,
        {
            out.push(t.methods[k].subgraph_id);
            assert(out@ =~= base + trait_sgs(m.trait_construct_info).take(k + 1));
            k = k + 1;
        }
    }
    assert(out@ =~= base + trait_sgs(m.trait_construct_info));
    let ghost base2 = out@;
    if let Some(g) = &m.gate_branches {
        let mut k: usize = 0;
        while k < g.branches.len()
            invariant
                m.gate_branches == Some(*g),
                k <= g.branches@.len(),
                out@ == base2 + gate_sgs(m.gate_branches).take(k as int),
            decreases g.branches@.len() - k,
        {
            out.push(g.branches[k].subgraph);
            assert(out@ =~= base2 + gate_sgs(m.gate_branches).take(k + 1));
            k = k + 1;
        }
    }
    assert(out@ =~= base2 + gate_sgs(m.gate_branches));
    let ghost base3 = out@;
    if let Some(s) = &m.select_info {
        let mut k: usize = 0;
        while k < s.branches.len()
            invariant
                m.select_info == Some(*s),
                k <= s.branches@.len(),
                out@ == base3 + select_sgs(m.select_info).take(k as int),
            decreases s.branches@.len() - k,
        {
            out.push(s.branches[k].subgraph_id);
            assert(out@ =~= base3 + select_sgs(m.select_info).take(k + 1));
            k = k + 1;
        }
    }
    assert(out@ =~= base3 + select_sgs(m.select_info));
    assert(out@ =~= meta_sgs(*m));
    out
}

fn links_of(sg: &SubGraph) -> (out: Vec<u32>)
    ensures
        out@ == sg_links(*sg),
{
    let mut out: Vec<u32> = Vec::new();
    out.push(sg.function_id);
    if let Some(p) = sg.loop_parent_sg {
        out.push(p.0);
    }
    let ghost base = out@;
    let ghost bodies = Seq::new(
        sg.defer_table@.len(),
        |k: int| sg.defer_table@[k].body_subgraph.0,
    );
    let mut k: usize = 0;
    while k < sg.defer_table.len()
        invariant
            k <= sg.defer_table@.len(),
            bodies == Seq::new(
                sg.defer_table@.len(),
                |k: int| sg.defer_table@[k].body_subgraph.0,
            ),
            out@ == base + bodies.take(k as int),
        decreases sg.defer_table@.len() - k,
    {
        out.push(sg.defer_table[k].body_subgraph.0);
        assert(out@ =~= base + bodies.take(k + 1));
        k = k + 1;
    }
    assert(out@ =~= sg_links(*sg));
    out
}

/// The subgraphs that a node's metadata refers to, and the one it was appended
/// for, are among the first `n`.
pub open spec fn meta_placed(m: NodeMeta, n: int) -> bool {
    &&& forall|k: int| 0 <= k < meta_sgs(m).len() ==> (#[trigger] meta_sgs(m)[k]).0 < n
    &&& m.hoisted_owner.0 < n || m.hoisted_owner.0 == NO_OWNER
}

/// A subgraph and what it is linked to are among the first `n`.
pub open spec fn sg_placed(sg: SubGraph, n: int) -> bool {
    &&& sg.id.0 < n
    &&& forall|k: int| 0 <= k < sg_links(sg).len() ==> (#[trigger] sg_links(sg)[k]) < n
}

/// Whether what a node's metadata refers to is among the first `n` subgraphs.
pub fn is_meta_placed(m: &NodeMeta, n: usize) -> (r: bool)
    ensures
        r == meta_placed(*m, n as int),
{
    let ids = meta_subgraphs(m);
    let mut k: usize = 0;
    while k < ids.len()
        invariant
            ids@ == meta_sgs(*m),
            k <= ids@.len(),
            forall|a: int| 0 <= a < k ==> (#[trigger] ids@[a]).0 < n,
        decreases ids@.len() - k,
    {
        if ids[k].0 as usize >= n {
            assert(meta_sgs(*m)[k as int].0 >= n);
            return false;
        }
        k = k + 1;
    }
    (m.hoisted_owner.0 as usize) < n || m.hoisted_owner.0 == NO_OWNER
}

/// Whether a subgraph and what it is linked to are among the first `n`.
pub fn is_sg_placed(sg: &SubGraph, n: usize) -> (r: bool)
    ensures
        r == sg_placed(*sg, n as int),
{
    let links = links_of(sg);
    let mut k: usize = 0;
    while k < links.len()
        invariant
            links@ == sg_links(*sg),
            k <= links@.len(),
            forall|a: int| 0 <= a < k ==> (#[trigger] links@[a]) < n,
        decreases links@.len() - k,
    {
        if links[k] as usize >= n {
            assert(sg_links(*sg)[k as int] >= n);
            return false;
        }
        k = k + 1;
    }
    (sg.id.0 as usize) < n
}

/// The metadata of the picked nodes.
pub open spec fn picked_metas(metas: Seq<NodeMeta>, picks: Seq<int>) -> Seq<NodeMeta> {
    Seq::new(picks.len(), |k: int| metas[picks[k]])
}

// ---- what a compaction keeps -----------------------------------------------

impl DataFlowGraph {
    /// Whether a compaction may remove subgraph `s`: it was declared dead, or
    /// its range is empty.
    pub open spec fn may_remove(&self, dead_sgs: Set<u32>, s: int) -> bool {
        dead_sgs.contains(self.subgraphs@[s].id.0) || self.subgraphs@[s].node_range.0
            == self.subgraphs@[s].node_range.1
    }

    /// Whether the entry, the dispatch table or one of the given nodes'
    /// metadata refers to subgraph `s`.
    pub open spec fn is_sg_root(&self, metas: Seq<NodeMeta>, s: u32) -> bool {
        ||| self.entry_subgraph == Some(SubGraphId(s))
        ||| exists|k: int|
            0 <= k < self.vtable_fallback_dispatch@.len() && (
            #[trigger] self.vtable_fallback_dispatch@[k]).target.0 == s
        ||| exists|k: int| 0 <= k < metas.len() && meta_sgs(#[trigger] metas[k]).contains(
            SubGraphId(s),
        )
    }

    /// A set of ids that holds every id that a compaction leaves a reference
    /// to: the roots, and the links of each subgraph that may not be removed or
    /// whose id is in the set.
    pub open spec fn keep_closed(
        &self,
        metas: Seq<NodeMeta>,
        dead_sgs: Set<u32>,
        s: Set<u32>,
    ) -> bool {
        &&& forall|i: u32| #[trigger] self.is_sg_root(metas, i) ==> s.contains(i)
        &&& forall|i: int, l: u32|
            0 <= i < self.subgraphs@.len() && (!self.may_remove(dead_sgs, i) || s.contains(
                self.subgraphs@[i].id.0,
            )) && #[trigger] sg_links(self.subgraphs@[i]).contains(l) ==> s.contains(l)
    }

    /// The ids that a compaction leaves a reference to: those in every such
    /// set.
    pub open spec fn referenced_sgs(&self, metas: Seq<NodeMeta>, dead_sgs: Set<u32>) -> Set<u32> {
        Set::new(
            |i: u32| forall|s: Set<u32>| self.keep_closed(metas, dead_sgs, s) ==> s.contains(i),
        )
    }

    /// Whether a compaction drops subgraph `s`: it may, and nothing that stays
    /// refers to it.
    pub open spec fn drops(&self, metas: Seq<NodeMeta>, dead_sgs: Set<u32>, s: int) -> bool {
        self.may_remove(dead_sgs, s) && !self.referenced_sgs(metas, dead_sgs).contains(
            self.subgraphs@[s].id.0,
        )
    }
}

/// Number of `true` entries.
pub open spec fn count_true(s: Seq<bool>) -> nat
    decreases s.len(),
{
    if s.len() == 0 {
        0
    } else {
        count_true(s.drop_last()) + if s.last() {
            1nat
        } else {
            0nat
        }
    }
}

proof fn lemma_count_update(s: Seq<bool>, i: int)
    requires
        0 <= i < s.len(),
        s[i],
    ensures
        count_true(s.update(i, false)) + 1 == count_true(s),
    decreases s.len(),
{
    let t = s.update(i, false);
    if i == s.len() - 1 {
        assert(t.drop_last() =~= s.drop_last());
    } else {
        assert(t.drop_last() =~= s.drop_last().update(i, false));
        lemma_count_update(s.drop_last(), i);
    }
}

impl DataFlowGraph {
    /// Every id that is marked is in every such set.
    spec fn marks_sound(&self, metas: Seq<NodeMeta>, dead_sgs: Set<u32>, marked: Set<u32>) -> bool {
        forall|s: Set<u32>, i: u32| #[trigger]
            self.keep_closed(metas, dead_sgs, s) && #[trigger] marked.contains(i) ==> s.contains(i)
    }

    fn mark_links(&self, i: usize, marked: &mut IdSet)
        requires
            i < self.subgraphs@.len(),
        ensures
            forall|x: u32| #[trigger]
                final(marked)@.contains(x) <==> old(marked)@.contains(x) || sg_links(
                    self.subgraphs@[i as int],
                ).contains(x),
    {
        let links = links_of(&self.subgraphs[i]);
        let mut k: usize = 0;
        while k < links.len()
            invariant
                k <= links@.len(),
                forall|x: u32| #[trigger]
                    marked@.contains(x) <==> old(marked)@.contains(x) || links@.take(
                        k as int,
                    ).contains(x),
            decreases links@.len() - k,
        {
            let ghost was = marked@;
            let ghost prev = links@.take(k as int);
            let ghost now = links@.take(k + 1);
            marked.insert(links[k]);
            assert(now =~= prev.push(links@[k as int]));
            assert forall|x: u32| #[trigger] marked@.contains(x) <==> old(marked)@.contains(x)
                || now.contains(x) by {
                lemma_push_contains(prev, links@[k as int], x);
            }
            k = k + 1;
        }
        assert(links@.take(links@.len() as int) =~= links@);
    }

    /// Finds the subgraphs that a compaction drops. `picks` are the nodes that
    /// stay.
    pub fn dropped_subgraphs(&self, picks: &Vec<usize>, dead_sgs: &IdSet) -> (removed: Vec<bool>)
        requires
            forall|k: int| 0 <= k < picks@.len() ==> (#[trigger] picks@[k]) < self.meta@.len(),
        ensures
            removed@.len() == self.subgraphs@.len(),
            forall|s: int|
                0 <= s < self.subgraphs@.len() ==> #[trigger] removed@[s] == self.drops(
                    picked_metas(self.meta@, positions(picks@)),
                    dead_sgs@,
                    s,
                ),
    {
        let ghost metas = picked_metas(self.meta@, positions(picks@));
        let n = self.subgraphs.len();
        let mut removed: Vec<bool> = Vec::new();
        let mut i: usize = 0;
        while i < n
            invariant
                i <= n == self.subgraphs@.len(),
                removed@.len() == i,
                forall|s: int|
                    0 <= s < i ==> #[trigger] removed@[s] == self.may_remove(dead_sgs@, s),
            decreases n - i,
        {
            let sg = &self.subgraphs[i];
            removed.push(dead_sgs.contains(sg.id.0) || sg.node_range.0 == sg.node_range.1);
            i = i + 1;
        }
        let mut marked = self.mark_roots(picks);
        proof {
            assert forall|s: Set<u32>, x: u32| #[trigger]
                self.keep_closed(metas, dead_sgs@, s) && #[trigger] marked@.contains(x) implies s.contains(
            x) by {
                assert(self.is_sg_root(metas, x));
            }
        }
        let mut j: usize = 0;
        while j < n
            invariant
                j <= n == self.subgraphs@.len() == removed@.len(),
                forall|s: int|
                    0 <= s < n ==> #[trigger] removed@[s] == self.may_remove(dead_sgs@, s),
                forall|x: u32| #[trigger] self.is_sg_root(metas, x) ==> marked@.contains(x),
                self.marks_sound(metas, dead_sgs@, marked@),
                forall|s: int, l: u32|
                    0 <= s < j && !removed@[s] && #[trigger] sg_links(
                        self.subgraphs@[s],
                    ).contains(l) ==> marked@.contains(l),
            decreases n - j,
        {
            if !removed[j] {
                let ghost was = marked@;
                self.mark_links(j, &mut marked);
                proof {
                    assert forall|s: Set<u32>, x: u32| #[trigger]
                        self.keep_closed(metas, dead_sgs@, s) && #[trigger] marked@.contains(
                            x,
                        ) implies s.contains(x) by {
                        if !was.contains(x) {
                            assert(!self.may_remove(dead_sgs@, j as int));
                            assert(sg_links(self.subgraphs@[j as int]).contains(x));
                        }
                    }
                }
            }
            j = j + 1;
        }
        let mut changed = true;
        while changed
            invariant
                n == self.subgraphs@.len() == removed@.len(),
                forall|s: int|
                    0 <= s < n && #[trigger] removed@[s] ==> self.may_remove(dead_sgs@, s),
                forall|s: int|
                    0 <= s < n && !#[trigger] removed@[s] ==> !self.may_remove(dead_sgs@, s)
                        || marked@.contains(self.subgraphs@[s].id.0),
                forall|x: u32| #[trigger] self.is_sg_root(metas, x) ==> marked@.contains(x),
                self.marks_sound(metas, dead_sgs@, marked@),
                forall|s: int, l: u32|
                    0 <= s < n && !removed@[s] && #[trigger] sg_links(
                        self.subgraphs@[s],
                    ).contains(l) ==> marked@.contains(l),
                !changed ==> forall|s: int|
                    0 <= s < n && marked@.contains(self.subgraphs@[s].id.0) ==> !#[trigger] removed@[s],
            decreases count_true(removed@), if changed { 1int } else { 0int },
        {
            changed = false;
            let ghost count = count_true(removed@);
            let mut k: usize = 0;
            while k < n
                invariant
                    k <= n == self.subgraphs@.len() == removed@.len(),
                        count_true(removed@) <= count,
                    changed ==> count_true(removed@) < count,
                    forall|s: int|
                        0 <= s < n && #[trigger] removed@[s] ==> self.may_remove(dead_sgs@, s),
                    forall|s: int|
                        0 <= s < n && !#[trigger] removed@[s] ==> !self.may_remove(dead_sgs@, s)
                            || marked@.contains(self.subgraphs@[s].id.0),
                    forall|x: u32| #[trigger] self.is_sg_root(metas, x) ==> marked@.contains(x),
                    self.marks_sound(metas, dead_sgs@, marked@),
                    forall|s: int, l: u32|
                        0 <= s < n && !removed@[s] && #[trigger] sg_links(
                            self.subgraphs@[s],
                        ).contains(l) ==> marked@.contains(l),
                    !changed ==> forall|s: int|
                        0 <= s < k && marked@.contains(self.subgraphs@[s].id.0) ==> !#[trigger] removed@[s],
                decreases n - k,
            {
                if removed[k] && marked.contains(self.subgraphs[k].id.0) {
                    proof {
                        lemma_count_update(removed@, k as int);
                    }
                    removed.set(k, false);
                    changed = true;
                    let ghost was = marked@;
                    self.mark_links(k, &mut marked);
                    proof {
                        assert forall|s: Set<u32>, x: u32| #[trigger]
                            self.keep_closed(metas, dead_sgs@, s) && #[trigger] marked@.contains(
                                x,
                            ) implies s.contains(x) by {
                            if !was.contains(x) {
                                assert(was.contains(self.subgraphs@[k as int].id.0));
                                assert(s.contains(self.subgraphs@[k as int].id.0));
                                assert(sg_links(self.subgraphs@[k as int]).contains(x));
                            }
                        }
                    }
                }
                k = k + 1;
            }
        }
        proof {
            assert(self.keep_closed(metas, dead_sgs@, marked@)) by {
                assert forall|i: int, l: u32|
                    0 <= i < n && (!self.may_remove(dead_sgs@, i) || marked@.contains(
                        self.subgraphs@[i].id.0,
                    )) && #[trigger] sg_links(self.subgraphs@[i]).contains(l) implies marked@.contains(l) by {
                    assert(!removed@[i]);
                }
            }
            assert forall|s: int| 0 <= s < n implies #[trigger] removed@[s] == self.drops(
                metas,
                dead_sgs@,
                s,
            ) by {
                let id = self.subgraphs@[s].id.0;
                if !removed@[s] && self.may_remove(dead_sgs@, s) {
                    assert(marked@.contains(id));
                    assert(self.referenced_sgs(metas, dead_sgs@).contains(id));
                }
            }
        }
        removed
    }

    /// Marks the subgraphs that the entry, the dispatch table and the given
    /// metadata refer to.
    fn mark_roots(&self, picks: &Vec<usize>) -> (marked: IdSet)
        requires
            forall|k: int| 0 <= k < picks@.len() ==> (#[trigger] picks@[k]) < self.meta@.len(),
        ensures
            forall|x: u32| #[trigger]
                marked@.contains(x) <==> self.is_sg_root(
                    picked_metas(self.meta@, positions(picks@)),
                    x,
                ),
    {
        let ghost metas = picked_metas(self.meta@, positions(picks@));
        let mut marked = IdSet::new();
        if let Some(e) = self.entry_subgraph {
            marked.insert(e.0);
        }
        let mut v: usize = 0;
        while v < self.vtable_fallback_dispatch.len()
            invariant
                v <= self.vtable_fallback_dispatch@.len(),
                forall|x: u32| #[trigger]
                    marked@.contains(x) <==> self.entry_subgraph == Some(SubGraphId(x))
                        || exists|k: int|
                        0 <= k < v && (#[trigger] self.vtable_fallback_dispatch@[k]).target.0 == x,
            decreases self.vtable_fallback_dispatch@.len() - v,
        {
            let ghost was = marked@;
            marked.insert(self.vtable_fallback_dispatch[v].target.0);
            assert forall|x: u32| #[trigger] marked@.contains(x) <==> self.entry_subgraph == Some(
                SubGraphId(x),
            ) || exists|k: int|
                0 <= k < v + 1 && (#[trigger] self.vtable_fallback_dispatch@[k]).target.0 == x by {
                if marked@.contains(x) && !was.contains(x) {
                    assert(self.vtable_fallback_dispatch@[v as int].target.0 == x);
                }
                if was.contains(x) && self.entry_subgraph != Some(SubGraphId(x)) {
                    let k = choose|k: int|
                        0 <= k < v && (#[trigger] self.vtable_fallback_dispatch@[k]).target.0 == x;
                    assert(0 <= k < v + 1);
                }
            }
            v = v + 1;
        }
        let ghost fixed = marked@;
        let mut i: usize = 0;
        while i < picks.len()
            invariant
                i <= picks@.len() == metas.len(),
                metas == picked_metas(self.meta@, positions(picks@)),
                forall|k: int| 0 <= k < picks@.len() ==> (#[trigger] picks@[k]) < self.meta@.len(),
                forall|x: u32| #[trigger]
                    marked@.contains(x) <==> fixed.contains(x) || exists|k: int|
                        0 <= k < i && meta_sgs(#[trigger] metas[k]).contains(SubGraphId(x)),
            decreases picks@.len() - i,
        {
            let ids = meta_subgraphs(&self.meta[picks[i]]);
            let ghost was = marked@;
            let mut j: usize = 0;
            while j < ids.len()
                invariant
                    j <= ids@.len(),
                    forall|x: u32| #[trigger]
                        marked@.contains(x) <==> was.contains(x) || exists|k: int|
                            0 <= k < j && (#[trigger] ids@[k]).0 == x,
                decreases ids@.len() - j,
            {
                let ghost prev = marked@;
                marked.insert(ids[j].0);
                assert forall|x: u32| #[trigger] marked@.contains(x) <==> was.contains(x)
                    || exists|k: int| 0 <= k < j + 1 && (#[trigger] ids@[k]).0 == x by {
                    if marked@.contains(x) && !prev.contains(x) {
                        assert(ids@[j as int].0 == x);
                    }
                    if prev.contains(x) && !was.contains(x) {
                        let k = choose|k: int| 0 <= k < j && (#[trigger] ids@[k]).0 == x;
                        assert(0 <= k < j + 1);
                    }
                }
                j = j + 1;
            }
            assert forall|x: u32| #[trigger] marked@.contains(x) <==> fixed.contains(x) || exists|
                k: int,
            |
                0 <= k < i + 1 && meta_sgs(#[trigger] metas[k]).contains(SubGraphId(x)) by {
                if marked@.contains(x) && !was.contains(x) {
                    let k = choose|k: int| 0 <= k < ids@.len() && (#[trigger] ids@[k]).0 == x;
                    assert(ids@[k] == SubGraphId(x));
                    assert(meta_sgs(metas[i as int]).contains(SubGraphId(x)));
                }
                if was.contains(x) && !fixed.contains(x) {
                    let k = choose|k: int|
                        0 <= k < i && meta_sgs(#[trigger] metas[k]).contains(SubGraphId(x));
                    assert(0 <= k < i + 1);
                }
                if meta_sgs(metas[i as int]).contains(SubGraphId(x)) {
                    let k = choose|k: int|
                        0 <= k < ids@.len() && #[trigger] ids@[k] == SubGraphId(x);
                    assert(ids@[k].0 == x);
                }
            }
            i = i + 1;
        }
        marked
    }
}

/// A subgraph that the entry, the dispatch table or a staying node refers to
/// is never dropped.
pub proof fn law_referenced_subgraphs_stay(
    g: &DataFlowGraph,
    metas: Seq<NodeMeta>,
    dead_sgs: Set<u32>,
    s: int,
)
    requires
        0 <= s < g.subgraphs@.len(),
        g.is_sg_root(metas, g.subgraphs@[s].id.0),
    ensures
        !g.drops(metas, dead_sgs, s),
{
}

/// With a subgraph that stays, its function, its loop and its defer bodies
/// stay.
pub proof fn law_links_of_kept_subgraphs_stay(
    g: &DataFlowGraph,
    metas: Seq<NodeMeta>,
    dead_sgs: Set<u32>,
    s: int,
    t: int,
)
    requires
        0 <= s < g.subgraphs@.len(),
        0 <= t < g.subgraphs@.len(),
        !g.drops(metas, dead_sgs, s),
        sg_links(g.subgraphs@[s]).contains(g.subgraphs@[t].id.0),
    ensures
        !g.drops(metas, dead_sgs, t),
{
    let l = g.subgraphs@[t].id.0;
    assert forall|c: Set<u32>| g.keep_closed(metas, dead_sgs, c) implies c.contains(l) by {
        if g.may_remove(dead_sgs, s) {
            assert(c.contains(g.subgraphs@[s].id.0));
        }
    }
}

/// Only what was declared dead or has an empty range is ever dropped.
pub proof fn law_only_removable_subgraphs_drop(
    g: &DataFlowGraph,
    metas: Seq<NodeMeta>,
    dead_sgs: Set<u32>,
    s: int,
)
    requires
        0 <= s < g.subgraphs@.len(),
        !g.may_remove(dead_sgs, s),
    ensures
        !g.drops(metas, dead_sgs, s),
{
}

proof fn lemma_push_contains(s: Seq<u32>, v: u32, x: u32)
    ensures
        s.push(v).contains(x) <==> s.contains(x) || x == v,
{
    let t = s.push(v);
    assert(t[s.len() as int] == v);
    if s.contains(x) {
        let k = choose|k: int| 0 <= k < s.len() && s[k] == x;
        assert(t[k] == x);
    }
    if t.contains(x) {
        let k = choose|k: int| 0 <= k < t.len() && t[k] == x;
        if k < s.len() {
            assert(s[k] == x);
        }
    }
}

pub proof fn lemma_either_part_holds<T>(a: Seq<T>, b: Seq<T>, x: T)
    ensures
        (a + b).contains(x) <==> a.contains(x) || b.contains(x),
{
    let c = a + b;
    if a.contains(x) {
        let k = choose|k: int| 0 <= k < a.len() && a[k] == x;
        assert(c[k] == x);
    }
    if b.contains(x) {
        let k = choose|k: int| 0 <= k < b.len() && b[k] == x;
        assert(c[a.len() + k] == x);
    }
    if c.contains(x) {
        let k = choose|k: int| 0 <= k < c.len() && c[k] == x;
        if k < a.len() {
            assert(a[k] == x);
        } else {
            assert(b[k - a.len()] == x);
        }
    }
}

/// A node's metadata refers to exactly the subgraph that it calls, that of its
/// closure, partial application and thunk, and those of its trait methods, gate
/// branches and select branches.
pub proof fn law_metadata_names_subgraphs(m: NodeMeta, id: SubGraphId)
    ensures
        meta_sgs(m).contains(id) <==> {
            ||| m.call_target == Some(id)
            ||| m.closure_info is Some && m.closure_info->0.subgraph_id == id
            ||| m.partial_info is Some && m.partial_info->0.subgraph_id == id
            ||| m.lazy_construct_info is Some && m.lazy_construct_info->0.thunk_sg == id
            ||| m.trait_construct_info is Some && exists|k: int|
                0 <= k < m.trait_construct_info->0.methods@.len()
                    && (#[trigger] m.trait_construct_info->0.methods@[k]).subgraph_id == id
            ||| m.gate_branches is Some && exists|k: int|
                0 <= k < m.gate_branches->0.branches@.len()
                    && (#[trigger] m.gate_branches->0.branches@[k]).subgraph == id
            ||| m.select_info is Some && exists|k: int|
                0 <= k < m.select_info->0.branches@.len()
                    && (#[trigger] m.select_info->0.branches@[k]).subgraph_id == id
        },
{
    let a = opt_sg(m.call_target);
    let b = opt_sg(
        match m.closure_info {
            None => None,
            Some(c) => Some(c.subgraph_id),
        },
    );
    let c = opt_sg(
        match m.partial_info {
            None => None,
            Some(p) => Some(p.subgraph_id),
        },
    );
    let d = opt_sg(
        match m.lazy_construct_info {
            None => None,
            Some(l) => Some(l.thunk_sg),
        },
    );
    let e = trait_sgs(m.trait_construct_info);
    let f = gate_sgs(m.gate_branches);
    let g = select_sgs(m.select_info);
    lemma_either_part_holds(a, b, id);
    lemma_either_part_holds(a + b, c, id);
    lemma_either_part_holds(a + b + c, d, id);
    lemma_either_part_holds(a + b + c + d, e, id);
    lemma_either_part_holds(a + b + c + d + e, f, id);
    lemma_either_part_holds(a + b + c + d + e + f, g, id);
    lemma_only_one(m.call_target, id);
    lemma_only_one(
        match m.closure_info {
            None => None,
            Some(x) => Some(x.subgraph_id),
        },
        id,
    );
    lemma_only_one(
        match m.partial_info {
            None => None,
            Some(x) => Some(x.subgraph_id),
        },
        id,
    );
    lemma_only_one(
        match m.lazy_construct_info {
            None => None,
            Some(x) => Some(x.thunk_sg),
        },
        id,
    );
    if m.trait_construct_info is Some {
        let t = m.trait_construct_info->0.methods@;
        if e.contains(id) {
            let k = choose|k: int| 0 <= k < e.len() && e[k] == id;
            assert(t[k].subgraph_id == id);
        }
        assert forall|k: int| 0 <= k < t.len() && (#[trigger] t[k]).subgraph_id == id implies e.contains(id) by {
            assert(e[k] == id);
        }
    }
    if m.gate_branches is Some {
        let t = m.gate_branches->0.branches@;
        if f.contains(id) {
            let k = choose|k: int| 0 <= k < f.len() && f[k] == id;
            assert(t[k].subgraph == id);
        }
        assert forall|k: int| 0 <= k < t.len() && (#[trigger] t[k]).subgraph == id implies f.contains(id) by {
            assert(f[k] == id);
        }
    }
    if m.select_info is Some {
        let t = m.select_info->0.branches@;
        if g.contains(id) {
            let k = choose|k: int| 0 <= k < g.len() && g[k] == id;
            assert(t[k].subgraph_id == id);
        }
        assert forall|k: int| 0 <= k < t.len() && (#[trigger] t[k]).subgraph_id == id implies g.contains(id) by {
            assert(g[k] == id);
        }
    }
}

proof fn lemma_only_one(o: Option<SubGraphId>, id: SubGraphId)
    ensures
        opt_sg(o).contains(id) <==> o == Some(id),
{
    if o == Some(id) {
        assert(opt_sg(o)[0] == id);
    }
}

/// A subgraph is linked to exactly its function, the loop that it is the body
/// of, and the bodies of its defer blocks.
pub proof fn law_subgraphs_are_linked(sg: SubGraph, id: u32)
    ensures
        sg_links(sg).contains(id) <==> {
            ||| sg.function_id == id
            ||| sg.loop_parent_sg == Some(SubGraphId(id))
            ||| exists|k: int|
                0 <= k < sg.defer_table@.len() && (#[trigger] sg.defer_table@[k]).body_subgraph.0 == id
        },
{
    let a = seq![sg.function_id];
    let b = match sg.loop_parent_sg {
        None => Seq::<u32>::empty(),
        Some(p) => seq![p.0],
    };
    let c = Seq::new(sg.defer_table@.len(), |k: int| sg.defer_table@[k].body_subgraph.0);
    lemma_either_part_holds(a, b, id);
    lemma_either_part_holds(a + b, c, id);
    if a.contains(id) {
    } else {
        assert(a[0] != id);
    }
    if sg.loop_parent_sg is Some {
        assert(b[0] == (sg.loop_parent_sg->0).0);
        assert((sg.loop_parent_sg->0) == SubGraphId((sg.loop_parent_sg->0).0));
        if b.contains(id) {
            let k = choose|k: int| 0 <= k < b.len() && b[k] == id;
            assert(k == 0);
        }
    }
    if c.contains(id) {
        let k = choose|k: int| 0 <= k < c.len() && c[k] == id;
        assert(sg.defer_table@[k].body_subgraph.0 == id);
    }
    assert forall|k: int|
        0 <= k < sg.defer_table@.len() && (#[trigger] sg.defer_table@[k]).body_subgraph.0 == id implies c.contains(id) by {
        assert(c[k] == id);
    }
}

} // verus!
