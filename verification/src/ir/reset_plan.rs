//! Loop reset plans: the condition tree of a loop, flattened.
//!
//! A loop iteration resets the nodes that its condition is computed from. The
//! walk from the condition roots over inputs is done once, and its result is
//! stored as a list of nodes, each with the number of its inputs that are
//! reset with it.

use vstd::prelude::*;
use vstd::set_lib::set_int_range;

use crate::fx::IdSet;
use crate::ir::graph::{in_range, DataFlowGraph};
use crate::ir::types::{NodeId, ResetPlan, SubGraph};

verus! {

/// Whether one of the ranges holds the id.
pub open spec fn in_some_range(ranges: Seq<(u32, u32)>, id: int) -> bool {
    exists|k: int| 0 <= k < ranges.len() && (#[trigger] ranges[k]).0 <= id < ranges[k].1
}

/// Whether the node belongs to the subgraph itself: in its range, and in none
/// of the nested ranges.
pub open spec fn owns_node(sg: SubGraph, id: int) -> bool {
    in_range(sg.node_range, id) && !in_some_range(sg.nested_ranges@, id)
}

/// Number of the ids that the tree holds.
pub open spec fn count_in(ids: Seq<NodeId>, tree: Seq<NodeId>) -> nat
    decreases ids.len(),
{
    if ids.len() == 0 {
        0
    } else {
        count_in(ids.drop_last(), tree) + if tree.contains(ids.last()) {
            1nat
        } else {
            0nat
        }
    }
}

/// Ids not visited yet.
pub open spec fn unvisited(visited: Set<u32>) -> Set<int> {
    set_int_range(0, 0x1_0000_0000).filter(|i: int| !visited.contains(i as u32))
}

pub proof fn lemma_unvisited(visited: Set<u32>, x: u32)
    requires
        !visited.contains(x),
    ensures
        unvisited(visited).finite(),
        unvisited(visited.insert(x)).len() < unvisited(visited).len(),
{
    vstd::set_lib::lemma_int_range(0, 0x1_0000_0000);
    let a = unvisited(visited);
    let b = unvisited(visited.insert(x));
    vstd::set_lib::lemma_len_subset(a, set_int_range(0, 0x1_0000_0000));
    assert(a.contains(x as int));
    assert(b =~= a.remove(x as int));
}

impl DataFlowGraph {
    /// The walk: takes ids from the end of the stack, skips those visited, and
    /// keeps those that the subgraph owns, whose inputs go on the stack.
    pub open spec fn condition_walk(
        &self,
        sg: SubGraph,
        stack: Seq<NodeId>,
        visited: Set<u32>,
    ) -> Seq<NodeId>
        decreases unvisited(visited).len(), stack.len(),
        via Self::condition_walk_terminates
    {
        if stack.len() == 0 {
            Seq::empty()
        } else {
            let x = stack.last();
            let rest = stack.drop_last();
            if visited.contains(x.0) {
                self.condition_walk(sg, rest, visited)
            } else if !owns_node(sg, x.0 as int) {
                self.condition_walk(sg, rest, visited.insert(x.0))
            } else {
                seq![x] + self.condition_walk(
                    sg,
                    rest + self.inputs_of(x.0 as int),
                    visited.insert(x.0),
                )
            }
        }
    }

    #[via_fn]
    proof fn condition_walk_terminates(&self, sg: SubGraph, stack: Seq<NodeId>, visited: Set<u32>) {
        if stack.len() > 0 && !visited.contains(stack.last().0) {
            lemma_unvisited(visited, stack.last().0);
        }
    }

    /// The nodes that the condition roots are computed from, inside the
    /// subgraph and outside its nested ranges, in the order of the walk.
    pub open spec fn condition_tree(&self, sg: SubGraph, roots: Seq<NodeId>) -> Seq<NodeId> {
        self.condition_walk(sg, roots, Set::empty())
    }

    /// The flattened condition tree: every node with the number of its inputs
    /// that are in the tree as well.
    pub open spec fn condition_plan(&self, sg: SubGraph, roots: Seq<NodeId>) -> Seq<(NodeId, u16)> {
        let tree = self.condition_tree(sg, roots);
        Seq::new(
            tree.len(),
            |k: int| (tree[k], count_in(self.inputs_of(tree[k].0 as int), tree) as u16),
        )
    }

    fn node_is_owned(&self, si: usize, id: u32) -> (r: bool)
        requires
            si < self.subgraphs@.len(),
        ensures
            r == owns_node(self.subgraphs@[si as int], id as int),
    {
        let sg = &self.subgraphs[si];
        if id < sg.node_range.0.0 || id >= sg.node_range.1.0 {
            return false;
        }
        let mut k: usize = 0;
        while k < sg.nested_ranges.len()
            invariant
                si < self.subgraphs@.len(),
                *sg == self.subgraphs@[si as int],
                sg.node_range.0.0 <= id < sg.node_range.1.0,
                k <= sg.nested_ranges@.len(),
                forall|j: int|
                    0 <= j < k ==> !((#[trigger] sg.nested_ranges@[j]).0 <= id
                        < sg.nested_ranges@[j].1),
            decreases sg.nested_ranges@.len() - k,
        {
            let (s, e) = sg.nested_ranges[k];
            if s <= id && id < e {
                assert(sg.nested_ranges@[k as int].0 <= id < sg.nested_ranges@[k as int].1);
                return false;
            }
            k = k + 1;
        }
        true
    }

    /// Flattens the condition tree of subgraph `si`.
    fn compute_condition_tree_plan(&self, si: usize, roots: &Vec<NodeId>) -> (plan: Vec<
        (NodeId, u16),
    >)
        requires
            self.wf(),
            si < self.subgraphs@.len(),
            self.subgraphs@[si as int].node_range.1.0 <= self.nodes@.len(),
        ensures
            plan@ == self.condition_plan(self.subgraphs@[si as int], roots@),
    {
        let ghost sg = self.subgraphs@[si as int];
        let mut visited = IdSet::new();
        let mut stack: Vec<NodeId> = Vec::new();
        let mut r: usize = 0;
        while r < roots.len()
            invariant
                r <= roots@.len(),
                stack@ == roots@.take(r as int),
            decreases roots@.len() - r,
        {
            stack.push(roots[r]);
            assert(stack@ =~= roots@.take(r + 1));
            r = r + 1;
        }
        assert(roots@.take(roots@.len() as int) =~= roots@);
        let mut tree: Vec<NodeId> = Vec::new();
        assert(tree@ + self.condition_walk(sg, stack@, visited@) =~= self.condition_tree(
            sg,
            roots@,
        ));
        while stack.len() > 0
            invariant
                self.wf(),
                si < self.subgraphs@.len(),
                sg == self.subgraphs@[si as int],
                sg.node_range.1.0 <= self.nodes@.len(),
                tree@ + self.condition_walk(sg, stack@, visited@) == self.condition_tree(
                    sg,
                    roots@,
                ),
                forall|k: int|
                    0 <= k < tree@.len() ==> owns_node(sg, (#[trigger] tree@[k]).0 as int),
            decreases unvisited(visited@).len(), stack@.len(),
        {
            let ghost before = stack@;
            let x = stack.pop().unwrap();
            assert(stack@ =~= before.drop_last());
            if !visited.contains(x.0) {
                proof {
                    lemma_unvisited(visited@, x.0);
                }
                visited.insert(x.0);
                if self.node_is_owned(si, x.0) {
                    let ghost rest = stack@;
                    let ghost out = tree@;
                    tree.push(x);
                    let inputs = self.inputs(x.0 as usize);
                    let mut j: usize = 0;
                    while j < inputs.len()
                        invariant
                            j <= inputs@.len(),
                            stack@ == rest + inputs@.take(j as int),
                        decreases inputs@.len() - j,
                    {
                        stack.push(inputs[j]);
                        assert(stack@ =~= rest + inputs@.take(j + 1));
                        j = j + 1;
                    }
                    assert(inputs@.take(inputs@.len() as int) =~= inputs@);
                    assert(tree@ + self.condition_walk(sg, stack@, visited@) =~= out + (seq![x]
                        + self.condition_walk(sg, stack@, visited@)));
                }
            }
        }
        assert(tree@ =~= self.condition_tree(sg, roots@));
        let mut members = IdSet::new();
        let mut t: usize = 0;
        while t < tree.len()
            invariant
                t <= tree@.len(),
                forall|i: u32| #[trigger]
                    members@.contains(i) <==> tree@.take(t as int).contains(NodeId(i)),
            decreases tree@.len() - t,
        {
            let ghost was = members@;
            members.insert(tree[t].0);
            proof {
                let now = tree@.take(t + 1);
                let prev = tree@.take(t as int);
                assert(now =~= prev.push(tree@[t as int]));
                assert forall|i: u32| #[trigger] members@.contains(i) <==> now.contains(
                    NodeId(i),
                ) by {
                    if now.contains(NodeId(i)) {
                        let k = choose|k: int| 0 <= k < now.len() && #[trigger] now[k] == NodeId(i);
                        if k < t {
                            assert(prev[k] == NodeId(i));
                            assert(was.contains(i));
                        }
                    }
                    if was.contains(i) {
                        let k = choose|k: int|
                            0 <= k < prev.len() && #[trigger] prev[k] == NodeId(i);
                        assert(now[k] == NodeId(i));
                    }
                    assert(now[t as int] == tree@[t as int]);
                }
            }
            t = t + 1;
        }
        assert(tree@.take(tree@.len() as int) =~= tree@);
        let mut plan: Vec<(NodeId, u16)> = Vec::new();
        let mut i: usize = 0;
        while i < tree.len()
            invariant
                self.wf(),
                i <= tree@.len(),
                sg == self.subgraphs@[si as int],
                sg.node_range.1.0 <= self.nodes@.len(),
                tree@ == self.condition_tree(sg, roots@),
                forall|k: int|
                    0 <= k < tree@.len() ==> owns_node(sg, (#[trigger] tree@[k]).0 as int),
                forall|q: u32| #[trigger] members@.contains(q) <==> tree@.contains(NodeId(q)),
                plan@ == self.condition_plan(sg, roots@).take(i as int),
            decreases tree@.len() - i,
        {
            let gid = tree[i];
            assert(owns_node(sg, tree@[i as int].0 as int));
            let inputs = self.inputs(gid.0 as usize);
            let mut pending: u16 = 0;
            let mut j: usize = 0;
            assert(inputs@.take(0).len() == 0);
            while j < inputs.len()
                invariant
                    j <= inputs@.len() <= u8::MAX,
                    forall|q: u32| #[trigger] members@.contains(q) <==> tree@.contains(NodeId(q)),
                    pending == count_in(inputs@.take(j as int), tree@),
                    pending <= j,
                decreases inputs@.len() - j,
            {
                assert(inputs@.take(j + 1).drop_last() =~= inputs@.take(j as int));
                assert(NodeId(inputs@[j as int].0) == inputs@[j as int]);
                if members.contains(inputs[j].0) {
                    pending = pending + 1;
                }
                j = j + 1;
            }
            assert(inputs@.take(inputs@.len() as int) =~= inputs@);
            plan.push((gid, pending));
            assert(plan@ =~= self.condition_plan(sg, roots@).take(i + 1));
            i = i + 1;
        }
        assert(plan@ =~= self.condition_plan(sg, roots@));
        plan
    }

    /// Whether subgraph `i` has condition roots to flatten.
    pub open spec fn has_condition_roots(sg: SubGraph) -> bool {
        sg.reset_plan is Some && sg.reset_plan->0.reset_condition_tree@.len() > 0
    }

    /// `b` is the subgraph `a` with its condition tree flattened, where it has
    /// roots; the same subgraph where it has none.
    pub open spec fn reset_planned(&self, a: SubGraph, b: SubGraph) -> bool {
        if Self::has_condition_roots(a) {
            &&& b.reset_plan is Some
            &&& b == SubGraph { reset_plan: b.reset_plan, ..a }
            &&& b.reset_plan->0 == ResetPlan {
                condition_tree_plan: b.reset_plan->0.condition_tree_plan,
                ..a.reset_plan->0
            }
            &&& b.reset_plan->0.condition_tree_plan@ == self.condition_plan(
                a,
                a.reset_plan->0.reset_condition_tree@,
            )
        } else {
            b == a
        }
    }

    /// Flattens the condition roots of every loop subgraph.
    pub fn precompute_reset_plans(&mut self)
        requires
            old(self).wf(),
            forall|i: int| #![trigger old(self).subgraphs@[i]]
                0 <= i < old(self).subgraphs@.len() && Self::has_condition_roots(
                    old(self).subgraphs@[i],
                ) ==> old(self).subgraphs@[i].node_range.1.0 <= old(self).nodes@.len(),
        ensures
            final(self).subgraphs@.len() == old(self).subgraphs@.len(),
            forall|i: int|
                0 <= i < old(self).subgraphs@.len() ==> old(self).reset_planned(
                    #[trigger] old(self).subgraphs@[i],
                    final(self).subgraphs@[i],
                ),
            *final(self) == (DataFlowGraph { subgraphs: final(self).subgraphs, ..*old(self) }),
    {
        let n = self.subgraphs.len();
        let mut i: usize = 0;
        while i < n
            invariant
                i <= n == self.subgraphs@.len() == old(self).subgraphs@.len(),
                old(self).wf(),
                forall|k: int| #![trigger old(self).subgraphs@[k]]
                    0 <= k < n && Self::has_condition_roots(old(self).subgraphs@[k])
                        ==> old(self).subgraphs@[k].node_range.1.0 <= old(self).nodes@.len(),
                forall|k: int|
                    0 <= k < i ==> old(self).reset_planned(
                        #[trigger] old(self).subgraphs@[k],
                        self.subgraphs@[k],
                    ),
                forall|k: int|
                    i <= k < n ==> #[trigger] self.subgraphs@[k] == old(self).subgraphs@[k],
                *self == (DataFlowGraph { subgraphs: self.subgraphs, ..*old(self) }),
            decreases n - i,
        {
            assert(self.subgraphs@[i as int] == old(self).subgraphs@[i as int]);
            let mut computed: Option<Vec<(NodeId, u16)>> = None;
            if let Some(plan) = &self.subgraphs[i].reset_plan {
                if plan.reset_condition_tree.len() > 0 {
                    assert(Self::has_condition_roots(old(self).subgraphs@[i as int]));
                    computed = Some(self.compute_condition_tree_plan(
                        i,
                        &plan.reset_condition_tree,
                    ));
                }
            }
            if let Some(list) = computed {
                let ghost a = self.subgraphs@[i as int];
                proof {
                    lemma_plan_frame(old(self), self, a, a.reset_plan->0.reset_condition_tree@);
                }
                let sg = &mut self.subgraphs[i];
                let mut plan: Option<ResetPlan> = None;
                core::mem::swap(&mut sg.reset_plan, &mut plan);
                if let Some(mut p) = plan {
                    p.condition_tree_plan = list;
                    sg.reset_plan = Some(p);
                }
            }
            i = i + 1;
        }
    }
}

proof fn lemma_walk_frame(
    a: &DataFlowGraph,
    b: &DataFlowGraph,
    sg: SubGraph,
    stack: Seq<NodeId>,
    visited: Set<u32>,
)
    requires
        a.nodes@ == b.nodes@,
        a.inputs_pool@ == b.inputs_pool@,
    ensures
        a.condition_walk(sg, stack, visited) == b.condition_walk(sg, stack, visited),
    decreases unvisited(visited).len(), stack.len(),
{
    if stack.len() > 0 {
        let x = stack.last();
        let rest = stack.drop_last();
        if visited.contains(x.0) {
            lemma_walk_frame(a, b, sg, rest, visited);
        } else {
            lemma_unvisited(visited, x.0);
            if !owns_node(sg, x.0 as int) {
                lemma_walk_frame(a, b, sg, rest, visited.insert(x.0));
            } else {
                assert(a.inputs_of(x.0 as int) == b.inputs_of(x.0 as int));
                lemma_walk_frame(
                    a,
                    b,
                    sg,
                    rest + a.inputs_of(x.0 as int),
                    visited.insert(x.0),
                );
            }
        }
    }
}

proof fn lemma_plan_frame(
    a: &DataFlowGraph,
    b: &DataFlowGraph,
    sg: SubGraph,
    roots: Seq<NodeId>,
)
    requires
        a.nodes@ == b.nodes@,
        a.inputs_pool@ == b.inputs_pool@,
    ensures
        a.condition_plan(sg, roots) == b.condition_plan(sg, roots),
{
    lemma_walk_frame(a, b, sg, roots, Set::empty());
    assert(a.condition_plan(sg, roots) =~= b.condition_plan(sg, roots));
}

// ---- laws ------------------------------------------------------------------

/// Walk membership: what the walk lists is owned, was not visited before, and
/// is listed once.
proof fn lemma_walk_members(g: &DataFlowGraph, sg: SubGraph, stack: Seq<NodeId>, visited: Set<u32>)
    ensures
        ({
            let w = g.condition_walk(sg, stack, visited);
            &&& w.no_duplicates()
            &&& forall|k: int|
                0 <= k < w.len() ==> owns_node(sg, (#[trigger] w[k]).0 as int) && !visited.contains(
                    w[k].0,
                )
        }),
    decreases unvisited(visited).len(), stack.len(),
{
    if stack.len() > 0 {
        let x = stack.last();
        let rest = stack.drop_last();
        if visited.contains(x.0) {
            lemma_walk_members(g, sg, rest, visited);
        } else {
            lemma_unvisited(visited, x.0);
            if !owns_node(sg, x.0 as int) {
                lemma_walk_members(g, sg, rest, visited.insert(x.0));
            } else {
                let tail = g.condition_walk(
                    sg,
                    rest + g.inputs_of(x.0 as int),
                    visited.insert(x.0),
                );
                lemma_walk_members(g, sg, rest + g.inputs_of(x.0 as int), visited.insert(x.0));
                let w = seq![x] + tail;
                assert forall|i: int, j: int| 0 <= i < w.len() && 0 <= j < w.len() && i != j implies w[i]
                    != w[j] by {
                    if i == 0 {
                        assert(w[j] == tail[j - 1]);
                    } else if j == 0 {
                        assert(w[i] == tail[i - 1]);
                    } else {
                        assert(w[i] == tail[i - 1] && w[j] == tail[j - 1]);
                    }
                }
                assert forall|k: int| 0 <= k < w.len() implies owns_node(
                    sg,
                    (#[trigger] w[k]).0 as int,
                ) && !visited.contains(w[k].0) by {
                    if k > 0 {
                        assert(w[k] == tail[k - 1]);
                    }
                }
            }
        }
    }
}

/// Walk coverage: every owned id on the stack that was not visited is listed,
/// and so is every owned, unvisited input of what is listed.
proof fn lemma_walk_covers(g: &DataFlowGraph, sg: SubGraph, stack: Seq<NodeId>, visited: Set<u32>)
    ensures
        ({
            let w = g.condition_walk(sg, stack, visited);
            &&& forall|id: NodeId| #[trigger]
                stack.contains(id) && owns_node(sg, id.0 as int) && !visited.contains(id.0)
                    ==> w.contains(id)
            &&& forall|k: int, id: NodeId|
                0 <= k < w.len() && #[trigger] g.inputs_of(w[k].0 as int).contains(id) && owns_node(
                    sg,
                    id.0 as int,
                ) && !visited.contains(id.0) ==> w.contains(id)
        }),
    decreases unvisited(visited).len(), stack.len(),
{
    if stack.len() > 0 {
        let x = stack.last();
        let rest = stack.drop_last();
        let w = g.condition_walk(sg, stack, visited);
        if visited.contains(x.0) {
            lemma_walk_covers(g, sg, rest, visited);
            assert forall|id: NodeId| #[trigger] stack.contains(id) && owns_node(sg, id.0 as int)
                && !visited.contains(id.0) implies w.contains(id) by {
                let k = choose|k: int| 0 <= k < stack.len() && stack[k] == id;
                assert(rest[k] == id);
                assert(rest.contains(id));
            }
            assert forall|k: int, id: NodeId|
                0 <= k < w.len() && #[trigger] g.inputs_of(w[k].0 as int).contains(id)
                    && owns_node(sg, id.0 as int) && !visited.contains(id.0) implies w.contains(
                id,
            ) by {
                let tail = g.condition_walk(sg, rest, visited);
                assert(w == tail);
                assert(g.inputs_of(tail[k].0 as int).contains(id));
            }
        } else {
            lemma_unvisited(visited, x.0);
            if !owns_node(sg, x.0 as int) {
                lemma_walk_covers(g, sg, rest, visited.insert(x.0));
                assert forall|id: NodeId| #[trigger] stack.contains(id) && owns_node(
                    sg,
                    id.0 as int,
                ) && !visited.contains(id.0) implies w.contains(id) by {
                    let k = choose|k: int| 0 <= k < stack.len() && stack[k] == id;
                    assert(rest[k] == id);
                    assert(rest.contains(id));
                }
                assert forall|k: int, id: NodeId|
                    0 <= k < w.len() && #[trigger] g.inputs_of(w[k].0 as int).contains(id)
                        && owns_node(sg, id.0 as int) && !visited.contains(id.0) implies w.contains(
                    id,
                ) by {
                    let tail = g.condition_walk(sg, rest, visited.insert(x.0));
                    assert(w == tail);
                    assert(id.0 != x.0);
                    assert(g.inputs_of(tail[k].0 as int).contains(id));
                }
            } else {
                let ins = g.inputs_of(x.0 as int);
                let next = rest + ins;
                let tail = g.condition_walk(sg, next, visited.insert(x.0));
                lemma_walk_covers(g, sg, next, visited.insert(x.0));
                assert(w == seq![x] + tail);
                assert(w[0] == x);
                assert forall|id: NodeId| tail.contains(id) implies w.contains(id) by {
                    let k = choose|k: int| 0 <= k < tail.len() && tail[k] == id;
                    assert(w[k + 1] == id);
                }
                assert forall|id: NodeId| #[trigger] stack.contains(id) && owns_node(
                    sg,
                    id.0 as int,
                ) && !visited.contains(id.0) implies w.contains(id) by {
                    let k = choose|k: int| 0 <= k < stack.len() && stack[k] == id;
                    if id != x {
                        assert(next[k] == id);
                        assert(next.contains(id));
                    }
                }
                assert forall|k: int, id: NodeId|
                    0 <= k < w.len() && #[trigger] g.inputs_of(w[k].0 as int).contains(id)
                        && owns_node(sg, id.0 as int) && !visited.contains(id.0) implies w.contains(
                    id,
                ) by {
                    if id != x {
                        if k == 0 {
                            let j = choose|j: int| 0 <= j < ins.len() && ins[j] == id;
                            assert(next[rest.len() + j] == id);
                            assert(next.contains(id));
                        } else {
                            assert(w[k] == tail[k - 1]);
                            assert(g.inputs_of(tail[k - 1].0 as int).contains(id));
                        }
                    }
                }
            }
        }
    }
}

/// The condition tree of a loop lists no node twice, only nodes that the
/// subgraph owns, every owned root, and with a node every owned input of it.
pub proof fn law_condition_tree_is_closed(g: &DataFlowGraph, sg: SubGraph, roots: Seq<NodeId>)
    ensures
        g.condition_tree(sg, roots).no_duplicates(),
        forall|k: int|
            0 <= k < g.condition_tree(sg, roots).len() ==> owns_node(
                sg,
                (#[trigger] g.condition_tree(sg, roots)[k]).0 as int,
            ),
        forall|id: NodeId| #[trigger]
            roots.contains(id) && owns_node(sg, id.0 as int) ==> g.condition_tree(
                sg,
                roots,
            ).contains(id),
        forall|k: int, id: NodeId|
            0 <= k < g.condition_tree(sg, roots).len() && #[trigger] g.inputs_of(
                g.condition_tree(sg, roots)[k].0 as int,
            ).contains(id) && owns_node(sg, id.0 as int) ==> g.condition_tree(sg, roots).contains(
                id,
            ),
{
    lemma_walk_members(g, sg, roots, Set::empty());
    lemma_walk_covers(g, sg, roots, Set::empty());
}

/// The flattened tree lists the tree's nodes in order, each with the number of
/// its inputs that lie in the tree.
pub proof fn law_condition_plans_count_inputs(g: &DataFlowGraph, sg: SubGraph, roots: Seq<NodeId>, k: int)
    requires
        0 <= k < g.condition_tree(sg, roots).len(),
    ensures
        ({
            let tree = g.condition_tree(sg, roots);
            let plan = g.condition_plan(sg, roots);
            let ids = g.inputs_of(tree[k].0 as int);
            &&& plan.len() == tree.len()
            &&& plan[k].0 == tree[k]
            &&& ids.len() <= u16::MAX && (forall|j: int| 0 <= j < ids.len() ==> tree.contains(#[trigger] ids[j])) ==> plan[k].1
                == ids.len()
            &&& (forall|j: int| 0 <= j < ids.len() ==> !tree.contains(#[trigger] ids[j])) ==> plan[k].1 == 0
        }),
{
    let tree = g.condition_tree(sg, roots);
    let ids = g.inputs_of(tree[k].0 as int);
    if forall|j: int| 0 <= j < ids.len() ==> tree.contains(#[trigger] ids[j]) {
        lemma_count_all(ids, tree);
    }
    if forall|j: int| 0 <= j < ids.len() ==> !tree.contains(#[trigger] ids[j]) {
        lemma_count_none(ids, tree);
    }
}

proof fn lemma_count_all(ids: Seq<NodeId>, tree: Seq<NodeId>)
    requires
        forall|j: int| 0 <= j < ids.len() ==> tree.contains(#[trigger] ids[j]),
    ensures
        count_in(ids, tree) == ids.len(),
    decreases ids.len(),
{
    if ids.len() > 0 {
        let r = ids.drop_last();
        assert forall|j: int| 0 <= j < r.len() implies tree.contains(#[trigger] r[j]) by {
            assert(r[j] == ids[j]);
        }
        lemma_count_all(r, tree);
        assert(tree.contains(ids[ids.len() - 1]));
    }
}

proof fn lemma_count_none(ids: Seq<NodeId>, tree: Seq<NodeId>)
    requires
        forall|j: int| 0 <= j < ids.len() ==> !tree.contains(#[trigger] ids[j]),
    ensures
        count_in(ids, tree) == 0,
    decreases ids.len(),
{
    if ids.len() > 0 {
        let r = ids.drop_last();
        assert forall|j: int| 0 <= j < r.len() implies !tree.contains(#[trigger] r[j]) by {
            assert(r[j] == ids[j]);
        }
        lemma_count_none(r, tree);
        assert(!tree.contains(ids[ids.len() - 1]));
    }
}

} // verus!
