//! Layout of a compacted graph: which nodes stay, who owns them, and in what
//! order they are numbered.
//!
//! Nodes are numbered function by function, in the order in which the
//! functions start. Within a function its own nodes come first, in id order,
//! and behind them the nodes that passes have appended for it, so that a
//! function's nodes stay contiguous. A node that no function owns comes last.

use vstd::prelude::*;

use crate::fx::{IdMap, IdSet};
use crate::ir::graph::{in_range, is_function_sg, DataFlowGraph};
use crate::ir::meta::NO_OWNER;
use crate::ir::types::{LoopKind, NodeId, SubGraph};

verus! {

/// Whether node `i` stays: neither dead nor redirected.
pub open spec fn stays(dead: Set<u32>, redirect: Map<u32, u32>, i: int) -> bool {
    !dead.contains(i as u32) && !redirect.contains_key(i as u32)
}

/// The last function subgraph among the first `k` whose range holds node `i`.
pub open spec fn function_over(sgs: Seq<SubGraph>, i: int, k: int) -> u32
    decreases k,
{
    if k <= 0 {
        NO_OWNER
    } else if is_function_sg(sgs[k - 1]) && in_range(sgs[k - 1].node_range, i) {
        sgs[k - 1].id.0
    } else {
        function_over(sgs, i, k - 1)
    }
}

/// Inserts the function at place `x` behind every function that starts no later.
pub open spec fn insert_function(sgs: Seq<SubGraph>, order: Seq<int>, x: int) -> Seq<int>
    decreases order.len(),
{
    if order.len() == 0 || sgs[order.last()].node_range.0.0 <= sgs[x].node_range.0.0 {
        order.push(x)
    } else {
        insert_function(sgs, order.drop_last(), x).push(order.last())
    }
}

/// The ids of the function subgraphs among the first `n`, by where the range of
/// the subgraph at that place starts; those that start together stay in order.
pub open spec fn function_order(sgs: Seq<SubGraph>, n: int) -> Seq<int>
    decreases n,
{
    if n <= 0 {
        Seq::empty()
    } else if is_function_sg(sgs[n - 1]) {
        insert_function(sgs, function_order(sgs, n - 1), sgs[n - 1].id.0 as int)
    } else {
        function_order(sgs, n - 1)
    }
}

/// Appends, in id order, the wanted nodes of [lo, hi) that are not there yet.
pub open spec fn placed(done: Seq<int>, lo: int, hi: int, want: spec_fn(int) -> bool) -> Seq<int>
    decreases hi - lo,
{
    if hi <= lo {
        done
    } else {
        let prev = placed(done, lo, hi - 1, want);
        if want(hi - 1) && !prev.contains(hi - 1) {
            prev.push(hi - 1)
        } else {
            prev
        }
    }
}

impl DataFlowGraph {
    /// Subgraph ids are positions.
    pub open spec fn sg_ids_wf(&self) -> bool {
        &&& self.subgraphs@.len() <= u32::MAX
        &&& forall|s: int| #![trigger self.subgraphs@[s]]
            0 <= s < self.subgraphs@.len() ==> self.subgraphs@[s].id.0 == s
    }

    /// Every function's id is the place of a subgraph.
    pub open spec fn function_ids_wf(&self) -> bool {
        &&& self.subgraphs@.len() <= u32::MAX
        &&& forall|s: int| #![trigger self.subgraphs@[s]]
            0 <= s < self.subgraphs@.len() && is_function_sg(self.subgraphs@[s])
                ==> self.subgraphs@[s].id.0 < self.subgraphs@.len()
    }

    /// The function that owns node `i`: the one whose range holds it, or the
    /// function of the subgraph for which a pass appended it; `NO_OWNER` if
    /// there is none.
    pub open spec fn owner_of(&self, i: int) -> u32 {
        let by_range = function_over(self.subgraphs@, i, self.subgraphs@.len() as int);
        if by_range == NO_OWNER && self.meta@[i].hoisted {
            let raw = self.meta@[i].hoisted_owner.0;
            if raw < self.subgraphs@.len() {
                self.subgraphs@[raw as int].function_id
            } else {
                raw
            }
        } else {
            by_range
        }
    }

    pub open spec fn native(&self, dead: Set<u32>, redirect: Map<u32, u32>) -> spec_fn(int) -> bool {
        |i: int| stays(dead, redirect, i) && !self.meta@[i].hoisted
    }

    pub open spec fn appended_for(
        &self,
        dead: Set<u32>,
        redirect: Map<u32, u32>,
        func: int,
    ) -> spec_fn(int) -> bool {
        |i: int|
            stays(dead, redirect, i) && self.meta@[i].hoisted && self.owner_of(i) == func
    }

    pub open spec fn staying(&self, dead: Set<u32>, redirect: Map<u32, u32>) -> spec_fn(int) -> bool {
        |i: int| stays(dead, redirect, i)
    }

    /// End of a subgraph's range, within the nodes.
    pub open spec fn range_stop(&self, s: int) -> int {
        if self.subgraphs@[s].node_range.1.0 < self.nodes@.len() {
            self.subgraphs@[s].node_range.1.0 as int
        } else {
            self.nodes@.len() as int
        }
    }

    /// The numbering after the first `k` functions.
    pub open spec fn layout_upto(
        &self,
        dead: Set<u32>,
        redirect: Map<u32, u32>,
        k: int,
    ) -> Seq<int>
        decreases k,
    {
        if k <= 0 {
            Seq::empty()
        } else {
            let s = function_order(self.subgraphs@, self.subgraphs@.len() as int)[k - 1];
            let own = placed(
                self.layout_upto(dead, redirect, k - 1),
                self.subgraphs@[s].node_range.0.0 as int,
                self.range_stop(s),
                self.native(dead, redirect),
            );
            placed(own, 0, self.nodes@.len() as int, self.appended_for(dead, redirect, s))
        }
    }

    /// The numbering of the staying nodes: position `k` holds the old id of
    /// the node that becomes node `k`.
    pub open spec fn layout(&self, dead: Set<u32>, redirect: Map<u32, u32>) -> Seq<int> {
        placed(
            self.layout_upto(
                dead,
                redirect,
                function_order(self.subgraphs@, self.subgraphs@.len() as int).len() as int,
            ),
            0,
            self.nodes@.len() as int,
            self.staying(dead, redirect),
        )
    }
}

/// The two directions of a partial numbering agree.
pub open spec fn numbering(o2n: Seq<Option<NodeId>>, n2o: Seq<usize>) -> bool {
    &&& n2o.len() <= u32::MAX
    &&& forall|p: int|
        0 <= p < n2o.len() ==> (#[trigger] n2o[p]) < o2n.len() && o2n[n2o[p] as int] == Some(
            NodeId(p as u32),
        )
    &&& forall|i: int|
        0 <= i < o2n.len() && (#[trigger] o2n[i]) is Some ==> (o2n[i]->0).0 < n2o.len()
            && n2o[(o2n[i]->0).0 as int] == i
}

/// Positions as integers.
pub open spec fn positions(v: Seq<usize>) -> Seq<int> {
    Seq::new(v.len(), |k: int| v[k] as int)
}

/// A numbering has no more entries than there are nodes.
proof fn lemma_numbering_len(o2n: Seq<Option<NodeId>>, n2o: Seq<usize>)
    requires
        numbering(o2n, n2o),
    ensures
        n2o.len() <= o2n.len(),
{
    let a = positions(n2o);
    assert forall|i: int, j: int| 0 <= i < a.len() && 0 <= j < a.len() && i != j implies a[i]
        != a[j] by {
        assert(n2o[i] < o2n.len() && n2o[j] < o2n.len());
    }
    a.unique_seq_to_set();
    vstd::set_lib::lemma_int_range(0, o2n.len() as int);
    assert(a.to_set().subset_of(vstd::set_lib::set_int_range(0, o2n.len() as int))) by {
        assert forall|x: int| a.to_set().contains(x) implies vstd::set_lib::set_int_range(
            0,
            o2n.len() as int,
        ).contains(x) by {
            let k = choose|k: int| 0 <= k < a.len() && a[k] == x;
            assert(n2o[k] < o2n.len());
        }
    }
    vstd::set_lib::lemma_len_subset(
        a.to_set(),
        vstd::set_lib::set_int_range(0, o2n.len() as int),
    );
}

/// Numbers node `i` next, if it has no number yet.
fn place(i: usize, o2n: &mut Vec<Option<NodeId>>, n2o: &mut Vec<usize>)
    requires
        i < old(o2n)@.len() <= u32::MAX,
        numbering(old(o2n)@, old(n2o)@),
    ensures
        final(o2n)@.len() == old(o2n)@.len(),
        numbering(final(o2n)@, final(n2o)@),
        positions(final(n2o)@) == if positions(old(n2o)@).contains(i as int) {
            positions(old(n2o)@)
        } else {
            positions(old(n2o)@).push(i as int)
        },
{
    if o2n[i].is_some() {
        let ghost p = (o2n@[i as int]->0).0 as int;
        assert(positions(n2o@)[p] == i);
        return;
    }
    assert(!positions(n2o@).contains(i as int)) by {
        if positions(n2o@).contains(i as int) {
            let k = choose|k: int|
                0 <= k < positions(n2o@).len() && positions(n2o@)[k] == i as int;
            assert(n2o@[k] == i);
        }
    }
    let ghost a = o2n@;
    let ghost b = n2o@;
    proof {
        lemma_numbering_len(a, b);
        // The node itself has no number, so there is room for one more.
        assert(b.len() < a.len()) by {
            if b.len() == a.len() {
                lemma_full_numbering(a, b, i as int);
            }
        }
    }
    o2n.set(i, Some(NodeId(n2o.len() as u32)));
    n2o.push(i);
    assert(positions(n2o@) =~= positions(b).push(i as int));
    assert forall|p: int| 0 <= p < n2o@.len() implies (#[trigger] n2o@[p]) < o2n@.len()
        && o2n@[n2o@[p] as int] == Some(NodeId(p as u32)) by {
        if p < b.len() {
            assert(b[p] == n2o@[p]);
            assert(b[p] != i);
        }
    }
    assert forall|k: int| 0 <= k < o2n@.len() && (#[trigger] o2n@[k]) is Some implies (
    o2n@[k]->0).0 < n2o@.len() && n2o@[(o2n@[k]->0).0 as int] == k by {
        if k != i {
            assert(a[k] == o2n@[k]);
        }
    }
}

/// A numbering with as many entries as nodes numbers every node.
proof fn lemma_full_numbering(o2n: Seq<Option<NodeId>>, n2o: Seq<usize>, i: int)
    requires
        numbering(o2n, n2o),
        n2o.len() == o2n.len(),
        0 <= i < o2n.len(),
    ensures
        o2n[i] is Some,
{
    if o2n[i] is None {
        // Leaving out node `i`, the numbering would still be one-to-one into
        // a smaller set.
        let a = positions(n2o);
        assert forall|x: int, y: int| 0 <= x < a.len() && 0 <= y < a.len() && x != y implies a[x]
            != a[y] by {
            assert(n2o[x] < o2n.len() && n2o[y] < o2n.len());
        }
        a.unique_seq_to_set();
        let all = vstd::set_lib::set_int_range(0, o2n.len() as int);
        vstd::set_lib::lemma_int_range(0, o2n.len() as int);
        assert(all.contains(i));
        assert(a.to_set().subset_of(all.remove(i))) by {
            assert forall|x: int| a.to_set().contains(x) implies all.remove(i).contains(x) by {
                let k = choose|k: int| 0 <= k < a.len() && a[k] == x;
                assert(n2o[k] < o2n.len());
                assert(o2n[n2o[k] as int] is Some);
            }
        }
        vstd::set_lib::lemma_len_subset(a.to_set(), all.remove(i));
        assert(false);
    }
}

proof fn lemma_placed_contains(
    done: Seq<int>,
    lo: int,
    hi: int,
    want: spec_fn(int) -> bool,
    x: int,
)
    ensures
        placed(done, lo, hi, want).contains(x) <==> done.contains(x) || (lo <= x < hi && want(x)),
    decreases hi - lo,
{
    if lo < hi {
        lemma_placed_contains(done, lo, hi - 1, want, x);
        let prev = placed(done, lo, hi - 1, want);
        let next = placed(done, lo, hi, want);
        if want(hi - 1) && !prev.contains(hi - 1) {
            assert(next == prev.push(hi - 1));
            assert(next[prev.len() as int] == hi - 1);
            if prev.contains(x) {
                let k = choose|k: int| 0 <= k < prev.len() && prev[k] == x;
                assert(next[k] == x);
            }
            if next.contains(x) {
                let k = choose|k: int| 0 <= k < next.len() && next[k] == x;
                if k < prev.len() {
                    assert(prev[k] == x);
                }
            }
        }
    }
}

proof fn lemma_placed_unique(done: Seq<int>, lo: int, hi: int, want: spec_fn(int) -> bool)
    requires
        done.no_duplicates(),
    ensures
        placed(done, lo, hi, want).no_duplicates(),
    decreases hi - lo,
{
    if lo < hi {
        lemma_placed_unique(done, lo, hi - 1, want);
        let prev = placed(done, lo, hi - 1, want);
        if want(hi - 1) && !prev.contains(hi - 1) {
            let next = prev.push(hi - 1);
            assert forall|i: int, j: int| 0 <= i < next.len() && 0 <= j < next.len() && i != j implies next[i]
                != next[j] by {
                if i == prev.len() {
                    assert(prev.contains(prev[j]));
                } else if j == prev.len() {
                    assert(prev.contains(prev[i]));
                }
            }
        }
    }
}

proof fn lemma_layout_upto(
    g: &DataFlowGraph,
    dead: Set<u32>,
    redirect: Map<u32, u32>,
    k: int,
    x: int,
)
    requires
        0 <= k <= function_order(g.subgraphs@, g.subgraphs@.len() as int).len(),
    ensures
        g.layout_upto(dead, redirect, k).no_duplicates(),
        g.layout_upto(dead, redirect, k).contains(x) ==> 0 <= x < g.nodes@.len() && stays(
            dead,
            redirect,
            x,
        ),
    decreases k,
{
    if k > 0 {
        lemma_layout_upto(g, dead, redirect, k - 1, x);
        let s = function_order(g.subgraphs@, g.subgraphs@.len() as int)[k - 1];
        let done = g.layout_upto(dead, redirect, k - 1);
        let lo = g.subgraphs@[s].node_range.0.0 as int;
        let hi = g.range_stop(s);
        let own = placed(done, lo, hi, g.native(dead, redirect));
        lemma_placed_unique(done, lo, hi, g.native(dead, redirect));
        lemma_placed_unique(
            own,
            0,
            g.nodes@.len() as int,
            g.appended_for(dead, redirect, s),
        );
        lemma_placed_contains(done, lo, hi, g.native(dead, redirect), x);
        lemma_placed_contains(
            own,
            0,
            g.nodes@.len() as int,
            g.appended_for(dead, redirect, s),
            x,
        );
    }
}

/// The numbering holds every staying node exactly once, and nothing else.
pub proof fn law_layout_numbers_what_stays(
    g: &DataFlowGraph,
    dead: Set<u32>,
    redirect: Map<u32, u32>,
)
    ensures
        g.layout(dead, redirect).no_duplicates(),
        forall|x: int| #[trigger]
            g.layout(dead, redirect).contains(x) <==> 0 <= x < g.nodes@.len() && stays(
                dead,
                redirect,
                x,
            ),
{
    let k = function_order(g.subgraphs@, g.subgraphs@.len() as int).len() as int;
    let done = g.layout_upto(dead, redirect, k);
    lemma_layout_upto(g, dead, redirect, k, 0);
    lemma_placed_unique(done, 0, g.nodes@.len() as int, g.staying(dead, redirect));
    assert forall|x: int| #[trigger] g.layout(dead, redirect).contains(x) <==> 0 <= x
        < g.nodes@.len() && stays(dead, redirect, x) by {
        lemma_layout_upto(g, dead, redirect, k, x);
        lemma_placed_contains(done, 0, g.nodes@.len() as int, g.staying(dead, redirect), x);
    }
}

proof fn lemma_function_order_bound(g: &DataFlowGraph, n: int)
    requires
        g.function_ids_wf(),
        0 <= n <= g.subgraphs@.len(),
    ensures
        function_order(g.subgraphs@, n).len() <= n,
        forall|k: int|
            0 <= k < function_order(g.subgraphs@, n).len() ==> 0 <= #[trigger] function_order(g.subgraphs@, n)[k]
                < g.subgraphs@.len(),
    decreases n,
{
    if n > 0 {
        lemma_function_order_bound(g, n - 1);
        let sg = g.subgraphs@[n - 1];
        if is_function_sg(sg) {
            lemma_insert_function_bound(g.subgraphs@, function_order(g.subgraphs@, n - 1), sg.id.0 as int);
        }
    }
}

proof fn lemma_insert_function_bound(sgs: Seq<SubGraph>, order: Seq<int>, x: int)
    requires
        0 <= x < sgs.len(),
        forall|k: int| 0 <= k < order.len() ==> 0 <= #[trigger] order[k] < sgs.len(),
    ensures
        insert_function(sgs, order, x).len() == order.len() + 1,
        forall|k: int|
            0 <= k < order.len() + 1 ==> 0 <= #[trigger] insert_function(sgs, order, x)[k] < sgs.len(),
    decreases order.len(),
{
    if order.len() != 0 && sgs[order.last()].node_range.0.0 > sgs[x].node_range.0.0 {
        assert forall|k: int| 0 <= k < order.drop_last().len() implies 0
            <= #[trigger] order.drop_last()[k] < sgs.len() by {
            assert(order[k] == order.drop_last()[k]);
        }
        lemma_insert_function_bound(sgs, order.drop_last(), x);
        assert(order[order.len() - 1] == order.last());
    }
}

impl DataFlowGraph {
    /// Whether subgraph `s` is a function's own subgraph.
    pub fn is_function_subgraph(&self, s: usize) -> (r: bool)
        requires
            s < self.subgraphs@.len(),
        ensures
            r == is_function_sg(self.subgraphs@[s as int]),
    {
        let sg = &self.subgraphs[s];
        sg.loop_kind == LoopKind::NotLoop && sg.loop_parent_sg.is_none() && sg.id.0
            == sg.function_id
    }

    /// The owning function of every node.
    pub fn node_owners(&self) -> (owners: Vec<u32>)
        requires
            self.meta@.len() == self.nodes@.len(),
        ensures
            owners@.len() == self.nodes@.len(),
            forall|i: int|
                0 <= i < self.nodes@.len() ==> #[trigger] owners@[i] == self.owner_of(i),
    {
        let total = self.nodes.len();
        let mut owners: Vec<u32> = Vec::new();
        let mut z: usize = 0;
        while z < total
            invariant
                z <= total,
                owners@.len() == z,
                forall|i: int| 0 <= i < z ==> #[trigger] owners@[i] == NO_OWNER,
            decreases total - z,
        {
            owners.push(NO_OWNER);
            z = z + 1;
        }
        let ghost sgs = self.subgraphs@;
        let mut s: usize = 0;
        while s < self.subgraphs.len()
            invariant
                total == self.nodes@.len() == owners@.len(),
                sgs == self.subgraphs@,
                s <= sgs.len(),
                forall|i: int|
                    0 <= i < total ==> #[trigger] owners@[i] == function_over(sgs, i, s as int),
            decreases sgs.len() - s,
        {
            let ghost was = owners@;
            if self.is_function_subgraph(s) {
                let range = self.subgraphs[s].node_range;
                let id = self.subgraphs[s].id.0;
                let stop: usize = if (range.1.0 as usize) < total {
                    range.1.0 as usize
                } else {
                    total
                };
                let mut i: usize = range.0.0 as usize;
                while i < stop
                    invariant
                        total == owners@.len() == was.len(),
                        stop <= total,
                        range.0.0 <= i,
                        i <= stop || i == range.0.0,
                        forall|k: int|
                            0 <= k < total ==> #[trigger] owners@[k] == if range.0.0 <= k < i {
                                id
                            } else {
                                was[k]
                            },
                    decreases stop - i,
                {
                    owners.set(i, id);
                    i = i + 1;
                }
            }
            assert forall|i: int| 0 <= i < total implies #[trigger] owners@[i] == function_over(
                sgs,
                i,
                s + 1,
            ) by {
                assert(was[i] == function_over(sgs, i, s as int));
            }
            s = s + 1;
        }
        let ghost by_range = owners@;
        let mut j: usize = 0;
        while j < total
            invariant
                total == self.nodes@.len() == owners@.len() == by_range.len() == self.meta@.len(),
                sgs == self.subgraphs@,
                j <= total,
                forall|i: int|
                    0 <= i < total ==> #[trigger] by_range[i] == function_over(
                        sgs,
                        i,
                        sgs.len() as int,
                    ),
                forall|i: int| 0 <= i < j ==> #[trigger] owners@[i] == self.owner_of(i),
                forall|i: int| j <= i < total ==> #[trigger] owners@[i] == by_range[i],
            decreases total - j,
        {
            assert(owners@[j as int] == by_range[j as int]);
            if self.meta[j].hoisted && owners[j] == NO_OWNER {
                let raw = self.meta[j].hoisted_owner.0;
                let owner = if (raw as usize) < self.subgraphs.len() {
                    self.subgraphs[raw as usize].function_id
                } else {
                    raw
                };
                owners.set(j, owner);
            }
            j = j + 1;
        }
        owners
    }

    /// The ids of the function subgraphs, by the start of their range.
    fn functions_by_start(&self) -> (order: Vec<usize>)
        requires
            self.function_ids_wf(),
        ensures
            positions(order@) == function_order(self.subgraphs@, self.subgraphs@.len() as int),
    {
        let mut order: Vec<usize> = Vec::new();
        let n = self.subgraphs.len();
        let ghost sgs = self.subgraphs@;
        let mut i: usize = 0;
        assert(positions(order@) =~= function_order(sgs, 0));
        while i < n
            invariant
                n == self.subgraphs@.len(),
                sgs == self.subgraphs@,
                self.function_ids_wf(),
                i <= n,
                positions(order@) == function_order(sgs, i as int),
            decreases n - i,
        {
            if self.is_function_subgraph(i) {
                let id = self.subgraphs[i].id.0 as usize;
                assert(id == sgs[i as int].id.0);
                let start = self.subgraphs[id].node_range.0.0;
                let ghost was = positions(order@);
                proof {
                    lemma_function_order_bound(self, i as int);
                    assert(was.take(was.len() as int) =~= was);
                    assert(insert_function(sgs, was, id as int) + was.skip(was.len() as int)
                        =~= insert_function(sgs, was, id as int));
                }
                let mut p: usize = order.len();
                while p > 0
                    invariant
                        n == self.subgraphs@.len(),
                        sgs == self.subgraphs@,
                        id < n,
                        start == sgs[id as int].node_range.0.0,
                        was == positions(order@),
                        p <= order@.len(),
                        forall|k: int| 0 <= k < was.len() ==> 0 <= #[trigger] was[k] < n,
                        insert_function(sgs, was, id as int) == insert_function(
                            sgs,
                            was.take(p as int),
                            id as int,
                        ) + was.skip(p as int),
                    ensures
                        p <= order@.len(),
                        insert_function(sgs, was, id as int) == was.take(p as int).push(id as int)
                            + was.skip(p as int),
                    decreases p,
                {
                    proof {
                        assert(was[p - 1] == order@[p - 1]);
                        assert(was.take(p as int).last() == was[p - 1]);
                        assert(was.take(p as int).drop_last() =~= was.take(p - 1));
                    }
                    if self.subgraphs[order[p - 1]].node_range.0.0 <= start {
                        break;
                    }
                    proof {
                        assert(insert_function(sgs, was.take(p - 1), id as int).push(was[p - 1])
                            + was.skip(p as int) =~= insert_function(
                            sgs,
                            was.take(p - 1),
                            id as int,
                        ) + was.skip(p - 1));
                    }
                    p = p - 1;
                }
                order.insert(p, id);
                assert(positions(order@) =~= was.take(p as int).push(id as int) + was.skip(
                    p as int,
                ));
            }
            i = i + 1;
        }
        order
    }

    /// Whether node `i` stays.
    pub fn node_stays(dead: &IdSet, redirect: &IdMap, i: usize) -> (r: bool)
        requires
            i <= u32::MAX,
        ensures
            r == stays(dead@, redirect@, i as int),
    {
        !dead.contains(i as u32) && !redirect.contains_key(i as u32)
    }

    /// Numbers the staying nodes; returns both directions of the numbering.
    pub fn number_nodes(&self, dead: &IdSet, redirect: &IdMap, owners: &Vec<u32>) -> (r: (
        Vec<Option<NodeId>>,
        Vec<usize>,
    ))
        requires
            self.meta@.len() == self.nodes@.len() <= u32::MAX,
            self.function_ids_wf(),
            owners@.len() == self.nodes@.len(),
            forall|i: int|
                0 <= i < self.nodes@.len() ==> #[trigger] owners@[i] == self.owner_of(i),
        ensures
            r.0@.len() == self.nodes@.len(),
            numbering(r.0@, r.1@),
            positions(r.1@) == self.layout(dead@, redirect@),
    {
        let total = self.nodes.len();
        let mut o2n: Vec<Option<NodeId>> = Vec::new();
        let mut z: usize = 0;
        while z < total
            invariant
                z <= total,
                o2n@.len() == z,
                forall|i: int| 0 <= i < z ==> #[trigger] o2n@[i] is None,
            decreases total - z,
        {
            o2n.push(None);
            z = z + 1;
        }
        let mut n2o: Vec<usize> = Vec::new();
        let order = self.functions_by_start();
        let ghost sgs = self.subgraphs@;
        let ghost ord = function_order(sgs, sgs.len() as int);
        proof {
            lemma_function_order_bound(self, sgs.len() as int);
            assert(positions(n2o@) =~= self.layout_upto(dead@, redirect@, 0));
        }
        let mut f: usize = 0;
        while f < order.len()
            invariant
                total == self.nodes@.len() == self.meta@.len() == owners@.len() <= u32::MAX,
                sgs == self.subgraphs@,
                sgs.len() <= u32::MAX,
                ord == function_order(sgs, sgs.len() as int),
                ord == positions(order@),
                forall|k: int| 0 <= k < ord.len() ==> 0 <= #[trigger] ord[k] < sgs.len(),
                forall|i: int| 0 <= i < total ==> #[trigger] owners@[i] == self.owner_of(i),
                f <= order@.len(),
                o2n@.len() == total,
                numbering(o2n@, n2o@),
                positions(n2o@) == self.layout_upto(dead@, redirect@, f as int),
            decreases order@.len() - f,
        {
            let s = order[f];
            assert(ord[f as int] == s);
            let range = self.subgraphs[s].node_range;
            let stop: usize = if (range.1.0 as usize) < total {
                range.1.0 as usize
            } else {
                total
            };
            let ghost done = positions(n2o@);
            let ghost native = self.native(dead@, redirect@);
            let ghost lo = range.0.0 as int;
            let mut i: usize = range.0.0 as usize;
            while i < stop
                invariant
                    total == self.nodes@.len() == self.meta@.len() <= u32::MAX,
                    native == self.native(dead@, redirect@),
                    lo == range.0.0,
                    lo <= i,
                    i <= stop || i == lo,
                    stop <= total,
                    o2n@.len() == total,
                    numbering(o2n@, n2o@),
                    positions(n2o@) == placed(done, lo, i as int, native),
                decreases stop - i,
            {
                if !self.meta[i].hoisted && Self::node_stays(dead, redirect, i) {
                    assert(native(i as int));
                    place(i, &mut o2n, &mut n2o);
                } else {
                    assert(!native(i as int));
                }
                i = i + 1;
            }
            let ghost own = positions(n2o@);
            assert(own == placed(done, lo, self.range_stop(s as int), native));
            let ghost mine = self.appended_for(dead@, redirect@, s as int);
            let mut j: usize = 0;
            while j < total
                invariant
                    total == self.nodes@.len() == self.meta@.len() == owners@.len() <= u32::MAX,
                    forall|i: int| 0 <= i < total ==> #[trigger] owners@[i] == self.owner_of(i),
                    mine == self.appended_for(dead@, redirect@, s as int),
                    s < sgs.len() <= u32::MAX,
                    j <= total,
                    o2n@.len() == total,
                    numbering(o2n@, n2o@),
                    positions(n2o@) == placed(own, 0, j as int, mine),
                decreases total - j,
            {
                assert(owners@[j as int] == self.owner_of(j as int));
                if self.meta[j].hoisted && owners[j] == s as u32 && Self::node_stays(
                    dead,
                    redirect,
                    j,
                ) {
                    assert(mine(j as int));
                    place(j, &mut o2n, &mut n2o);
                } else {
                    assert(!mine(j as int));
                }
                j = j + 1;
            }
            f = f + 1;
        }
        let ghost done = positions(n2o@);
        let ghost staying = self.staying(dead@, redirect@);
        let mut u: usize = 0;
        while u < total
            invariant
                total == self.nodes@.len() <= u32::MAX,
                staying == self.staying(dead@, redirect@),
                u <= total,
                o2n@.len() == total,
                numbering(o2n@, n2o@),
                positions(n2o@) == placed(done, 0, u as int, staying),
            decreases total - u,
        {
            if Self::node_stays(dead, redirect, u) {
                assert(staying(u as int));
                place(u, &mut o2n, &mut n2o);
            } else {
                assert(!staying(u as int));
            }
            u = u + 1;
        }
        assert(ord.len() == order@.len());
        (o2n, n2o)
    }
}

/// Which function a node belongs to: the last function whose own subgraph holds
/// it; where none does, and it was appended for a subgraph, that subgraph's
/// function; else none.
pub proof fn law_owners_of_nodes(g: &DataFlowGraph, i: int, s: int)
    ensures
        0 <= s < g.subgraphs@.len() && g.subgraphs@[s].loop_kind == LoopKind::NotLoop && g.subgraphs@[s].loop_parent_sg
            is None && g.subgraphs@[s].id.0 == g.subgraphs@[s].function_id && g.subgraphs@[s].id.0 != NO_OWNER
            && g.subgraphs@[s].node_range.0.0 <= i < g.subgraphs@[s].node_range.1.0 && (forall|t: int|
            #![trigger g.subgraphs@[t]]
            s < t < g.subgraphs@.len() ==> !(is_function_sg(g.subgraphs@[t]) && in_range(g.subgraphs@[t].node_range, i)))
            ==> g.owner_of(i) == g.subgraphs@[s].id.0,
        (forall|t: int| #![trigger g.subgraphs@[t]]
            0 <= t < g.subgraphs@.len() ==> !(is_function_sg(g.subgraphs@[t]) && in_range(
                g.subgraphs@[t].node_range,
                i,
            ))) ==> {
            let raw = g.meta@[i].hoisted_owner.0;
            &&& !g.meta@[i].hoisted ==> g.owner_of(i) == NO_OWNER
            &&& g.meta@[i].hoisted && raw < g.subgraphs@.len() ==> g.owner_of(i) == g.subgraphs@[raw as int].function_id
        },
{
    let n = g.subgraphs@.len() as int;
    if 0 <= s < n && is_function_sg(g.subgraphs@[s]) && in_range(g.subgraphs@[s].node_range, i) && forall|t: int|
        #![trigger g.subgraphs@[t]]
        s < t < n ==> !(is_function_sg(g.subgraphs@[t]) && in_range(g.subgraphs@[t].node_range, i)) {
        lemma_function_over(g.subgraphs@, i, n, s);
    }
    if forall|t: int| #![trigger g.subgraphs@[t]]
        0 <= t < n ==> !(is_function_sg(g.subgraphs@[t]) && in_range(g.subgraphs@[t].node_range, i)) {
        lemma_no_function_over(g.subgraphs@, i, n);
    }
}

proof fn lemma_function_over(sgs: Seq<SubGraph>, i: int, k: int, s: int)
    requires
        0 <= s < k <= sgs.len(),
        is_function_sg(sgs[s]),
        in_range(sgs[s].node_range, i),
        forall|t: int| #![trigger sgs[t]] s < t < k ==> !(is_function_sg(sgs[t]) && in_range(sgs[t].node_range, i)),
    ensures
        function_over(sgs, i, k) == sgs[s].id.0,
    decreases k,
{
    if s < k - 1 {
        assert(!(is_function_sg(sgs[k - 1]) && in_range(sgs[k - 1].node_range, i)));
        lemma_function_over(sgs, i, k - 1, s);
    }
}

proof fn lemma_no_function_over(sgs: Seq<SubGraph>, i: int, k: int)
    requires
        0 <= k <= sgs.len(),
        forall|t: int| #![trigger sgs[t]] 0 <= t < k ==> !(is_function_sg(sgs[t]) && in_range(sgs[t].node_range, i)),
    ensures
        function_over(sgs, i, k) == NO_OWNER,
    decreases k,
{
    if k > 0 {
        assert(!(is_function_sg(sgs[k - 1]) && in_range(sgs[k - 1].node_range, i)));
        lemma_no_function_over(sgs, i, k - 1);
    }
}

} // verus!
