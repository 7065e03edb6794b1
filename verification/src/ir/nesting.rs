//! Nesting of subgraph ranges: the directly nested ranges of every subgraph,
//! and the extension of a range to nodes that a pass appended.

use vstd::prelude::*;

use crate::ir::graph::{range_within, DataFlowGraph};
use crate::ir::types::{NodeId, SubGraph, SubGraphId};

verus! {

/// Whether range `a` is sorted before range `b`: by start, and the wider one
/// first where they start together.
pub open spec fn range_before(a: (NodeId, NodeId), b: (NodeId, NodeId)) -> bool {
    a.0.0 < b.0.0 || a.0.0 == b.0.0 && a.1.0 > b.1.0
}

pub open spec fn nonempty(r: (NodeId, NodeId)) -> bool {
    r.0.0 < r.1.0
}

/// Inserts subgraph `x` behind everything that is not sorted after it.
pub open spec fn insert_region(sgs: Seq<SubGraph>, order: Seq<int>, x: int) -> Seq<int>
    decreases order.len(),
{
    if order.len() == 0 || !range_before(sgs[x].node_range, sgs[order.last()].node_range) {
        order.push(x)
    } else {
        insert_region(sgs, order.drop_last(), x).push(order.last())
    }
}

/// The non-empty subgraphs among the first `n`, sorted by range; equal ranges
/// stay in id order.
pub open spec fn nesting_order(sgs: Seq<SubGraph>, n: int) -> Seq<int>
    decreases n,
{
    if n <= 0 {
        Seq::empty()
    } else if nonempty(sgs[n - 1].node_range) {
        insert_region(sgs, nesting_order(sgs, n - 1), n - 1)
    } else {
        nesting_order(sgs, n - 1)
    }
}

/// The last of the first `p` subgraphs in the order whose range contains the
/// given one.
pub open spec fn last_container(
    sgs: Seq<SubGraph>,
    order: Seq<int>,
    range: (NodeId, NodeId),
    p: int,
) -> Option<int>
    decreases p,
{
    if p <= 0 {
        None
    } else if range_within(range, sgs[order[p - 1]].node_range) {
        Some(order[p - 1])
    } else {
        last_container(sgs, order, range, p - 1)
    }
}

/// Ranges directly nested in subgraph `i`, among the first `m` of the order:
/// those whose last container before them is `i`.
pub open spec fn nested_in(sgs: Seq<SubGraph>, order: Seq<int>, i: int, m: int) -> Seq<(u32, u32)>
    decreases m,
{
    if m <= 0 {
        Seq::empty()
    } else {
        let r = sgs[order[m - 1]].node_range;
        let before = nested_in(sgs, order, i, m - 1);
        if last_container(sgs, order, r, m - 1) == Some(i) {
            before.push((r.0.0, r.1.0))
        } else {
            before
        }
    }
}

/// The directly nested ranges of subgraph `i`.
pub open spec fn nested_ranges_of(sgs: Seq<SubGraph>, i: int) -> Seq<(u32, u32)> {
    let order = nesting_order(sgs, sgs.len() as int);
    nested_in(sgs, order, i, order.len() as int)
}

/// The same subgraphs, with `nested_ranges` recomputed.
pub open spec fn nesting_recomputed(a: Seq<SubGraph>, b: Seq<SubGraph>) -> bool {
    &&& a.len() == b.len()
    &&& forall|i: int|
        0 <= i < a.len() ==> (#[trigger] b[i]).nested_ranges@ == nested_ranges_of(a, i) && b[i]
            == (SubGraph { nested_ranges: b[i].nested_ranges, ..a[i] })
}

// ---- the order -------------------------------------------------------------

#[verifier::opaque]
spec fn sorted_by_range(sgs: Seq<SubGraph>, order: Seq<int>) -> bool {
    forall|a: int, b: int|
        0 <= a < b < order.len() ==> !range_before(
            #[trigger] sgs[order[b]].node_range,
            #[trigger] sgs[order[a]].node_range,
        )
}

spec fn all_nonempty(sgs: Seq<SubGraph>, order: Seq<int>) -> bool {
    forall|a: int|
        0 <= a < order.len() ==> 0 <= #[trigger] order[a] < sgs.len() && nonempty(
            sgs[order[a]].node_range,
        )
}

proof fn lemma_insert_keeps(sgs: Seq<SubGraph>, order: Seq<int>, x: int)
    requires
        0 <= x < sgs.len(),
        nonempty(sgs[x].node_range),
        sorted_by_range(sgs, order),
        all_nonempty(sgs, order),
    ensures
        sorted_by_range(sgs, insert_region(sgs, order, x)),
        all_nonempty(sgs, insert_region(sgs, order, x)),
        insert_region(sgs, order, x).len() == order.len() + 1,
        forall|k: int| #[trigger]
            insert_region(sgs, order, x).contains(k) <==> order.contains(k) || k == x,
    decreases order.len(),
{
    reveal(sorted_by_range);
    if order.len() == 0 || !range_before(sgs[x].node_range, sgs[order.last()].node_range) {
        let r = order.push(x);
        assert forall|a: int, b: int| 0 <= a < b < r.len() implies !range_before(
            #[trigger] sgs[r[b]].node_range,
            #[trigger] sgs[r[a]].node_range,
        ) by {
            if b == order.len() {
                assert(!range_before(sgs[x].node_range, sgs[order.last()].node_range));
                if a < order.len() - 1 {
                    assert(!range_before(
                        sgs[order[order.len() - 1]].node_range,
                        sgs[order[a]].node_range,
                    ));
                }
            }
        }
        assert forall|k: int| r.contains(k) <==> order.contains(k) || k == x by {
            if order.contains(k) {
                let j = choose|j: int| 0 <= j < order.len() && order[j] == k;
                assert(r[j] == k);
            }
            assert(r[order.len() as int] == x);
        }
    } else {
        let last = order.last();
        let rest = order.drop_last();
        lemma_insert_keeps(sgs, rest, x);
        let ins = insert_region(sgs, rest, x);
        let r = ins.push(last);
        assert forall|a: int, b: int| 0 <= a < b < r.len() implies !range_before(
            #[trigger] sgs[r[b]].node_range,
            #[trigger] sgs[r[a]].node_range,
        ) by {
            if b == ins.len() {
                assert(ins.contains(ins[a]));
                if ins[a] != x {
                    assert(rest.contains(ins[a]));
                    let j = choose|j: int| 0 <= j < rest.len() && rest[j] == ins[a];
                    assert(!range_before(
                        sgs[order[order.len() - 1]].node_range,
                        sgs[order[j]].node_range,
                    ));
                }
            }
        }
        assert forall|k: int| r.contains(k) <==> order.contains(k) || k == x by {
            if r.contains(k) {
                let j = choose|j: int| 0 <= j < r.len() && r[j] == k;
                if j < ins.len() {
                    assert(ins.contains(k));
                    if k != x {
                        let q = choose|q: int| 0 <= q < rest.len() && rest[q] == k;
                        assert(order[q] == k);
                    }
                } else {
                    assert(order[order.len() - 1] == k);
                }
            }
            if order.contains(k) {
                let j = choose|j: int| 0 <= j < order.len() && order[j] == k;
                if j < rest.len() {
                    assert(rest[j] == k);
                    assert(ins.contains(k));
                    let q = choose|q: int| 0 <= q < ins.len() && ins[q] == k;
                    assert(r[q] == k);
                } else {
                    assert(r[ins.len() as int] == k);
                }
            }
            assert(ins.contains(x));
            let q = choose|q: int| 0 <= q < ins.len() && ins[q] == x;
            assert(r[q] == x);
        }
    }
}

/// The order is sorted by range and holds exactly the non-empty subgraphs.
proof fn lemma_order(sgs: Seq<SubGraph>, n: int)
    requires
        0 <= n <= sgs.len(),
    ensures
        sorted_by_range(sgs, nesting_order(sgs, n)),
        all_nonempty(sgs, nesting_order(sgs, n)),
        nesting_order(sgs, n).len() <= n,
        forall|k: int| #[trigger]
            nesting_order(sgs, n).contains(k) <==> 0 <= k < n && nonempty(sgs[k].node_range),
    decreases n,
{
    reveal(sorted_by_range);
    if n > 0 {
        lemma_order(sgs, n - 1);
        if nonempty(sgs[n - 1].node_range) {
            lemma_insert_keeps(sgs, nesting_order(sgs, n - 1), n - 1);
        }
    }
}

/// The ids of an order as integers.
pub open spec fn as_ints(v: Seq<u32>) -> Seq<int> {
    Seq::new(v.len(), |k: int| v[k] as int)
}

impl DataFlowGraph {
    /// The non-empty subgraphs, sorted by range.
    fn sorted_regions(&self) -> (order: Vec<u32>)
        requires
            self.subgraphs@.len() <= u32::MAX,
        ensures
            as_ints(order@) == nesting_order(self.subgraphs@, self.subgraphs@.len() as int),
    {
        let mut order: Vec<u32> = Vec::new();
        let n = self.subgraphs.len();
        let ghost sgs = self.subgraphs@;
        let mut i: usize = 0;
        assert(as_ints(order@) =~= nesting_order(sgs, 0));
        while i < n
            invariant
                n == self.subgraphs@.len() <= u32::MAX,
                sgs == self.subgraphs@,
                i <= n,
                as_ints(order@) == nesting_order(sgs, i as int),
            decreases n - i,
        {
            let range = self.subgraphs[i].node_range;
            if range.0.0 < range.1.0 {
                let ghost was = as_ints(order@);
                proof {
                    lemma_order(sgs, i as int);
                    assert(was.take(was.len() as int) =~= was);
                    assert(insert_region(sgs, was, i as int) + was.skip(was.len() as int)
                        =~= insert_region(sgs, was, i as int));
                }
                let mut p: usize = order.len();
                // Everything from `p` on is sorted after the new region.
                while p > 0 && range_is_before(
                    range,
                    self.subgraphs[order[p - 1] as usize].node_range,
                )
                    invariant
                        n == self.subgraphs@.len() <= u32::MAX,
                        sgs == self.subgraphs@,
                        i < n,
                        range == sgs[i as int].node_range,
                        was == as_ints(order@),
                        p <= order@.len(),
                        forall|k: int| 0 <= k < order@.len() ==> 0 <= #[trigger] was[k] < n,
                        insert_region(sgs, was, i as int) == insert_region(
                            sgs,
                            was.take(p as int),
                            i as int,
                        ) + was.skip(p as int),
                    decreases p,
                {
                    proof {
                        let head = was.take(p as int);
                        assert(head.last() == was[p - 1]);
                        assert(head.drop_last() =~= was.take(p - 1));
                        assert(insert_region(sgs, head, i as int) == insert_region(
                            sgs,
                            head.drop_last(),
                            i as int,
                        ).push(head.last()));
                        assert(insert_region(sgs, was.take(p - 1), i as int).push(was[p - 1])
                            + was.skip(p as int) =~= insert_region(
                            sgs,
                            was.take(p - 1),
                            i as int,
                        ) + was.skip(p - 1));
                    }
                    p = p - 1;
                }
                proof {
                    let head = was.take(p as int);
                    if p > 0 {
                        assert(head.last() == was[p - 1]);
                    }
                    assert(insert_region(sgs, head, i as int) == head.push(i as int));
                }
                order.insert(p, i as u32);
                assert(as_ints(order@) =~= was.take(p as int).push(i as int) + was.skip(p as int));
            }
            i = i + 1;
        }
        order
    }

    /// Recomputes the directly nested ranges of every subgraph from the node
    /// ranges. Empty ranges are never nested.
    pub fn compute_nested_ranges(&mut self)
        requires
            old(self).subgraphs@.len() <= u32::MAX,
        ensures
            nesting_recomputed(old(self).subgraphs@, final(self).subgraphs@),
            *final(self) == (DataFlowGraph { subgraphs: final(self).subgraphs, ..*old(self) }),
    {
        let order = self.sorted_regions();
        let mut children = self.group_by_container(&order);
        let n = self.subgraphs.len();
        let ghost sgs = self.subgraphs@;
        let ghost kids = children@;
        let mut i: usize = 0;
        while i < n
            invariant
                i <= n == self.subgraphs@.len() == sgs.len() == kids.len() == children@.len(),
                sgs == old(self).subgraphs@,
                forall|k: int| 0 <= k < n ==> (#[trigger] kids[k])@ == nested_ranges_of(sgs, k),
                forall|k: int| i <= k < n ==> #[trigger] children@[k] == kids[k],
                forall|k: int|
                    0 <= k < i ==> (#[trigger] self.subgraphs@[k]).nested_ranges@
                        == nested_ranges_of(sgs, k) && self.subgraphs@[k] == (SubGraph {
                        nested_ranges: self.subgraphs@[k].nested_ranges,
                        ..sgs[k]
                    }),
                forall|k: int| i <= k < n ==> #[trigger] self.subgraphs@[k] == sgs[k],
                *self == (DataFlowGraph { subgraphs: self.subgraphs, ..*old(self) }),
            decreases n - i,
        {
            let mut list: Vec<(u32, u32)> = Vec::new();
            core::mem::swap(&mut children[i], &mut list);
            assert(list == kids[i as int]);
            let ghost before = self.subgraphs@;
            let sg = &mut self.subgraphs[i];
            sg.nested_ranges = list;
            i = i + 1;
        }
    }

    /// Pops the positions whose ranges cannot contain that of position `k`.
    fn pop_closed(&self, order: &Vec<u32>, k: usize, stack: &mut Vec<usize>)
        requires
            all_nonempty(self.subgraphs@, as_ints(order@)),
            k < order@.len(),
            forall|j: int| 0 <= j < old(stack)@.len() ==> (#[trigger] old(stack)@[j]) < k,
        ensures
            final(stack)@.len() <= old(stack)@.len(),
            final(stack)@ == old(stack)@.take(final(stack)@.len() as int),
            forall|j: int|
                final(stack)@.len() <= j < old(stack)@.len() ==> closed_before(
                    self.subgraphs@[order@[#[trigger] old(stack)@[j] as int] as int].node_range,
                    self.subgraphs@[order@[k as int] as int].node_range,
                ),
            final(stack)@.len() > 0 ==> !closed_before(
                self.subgraphs@[order@[final(stack)@.last() as int] as int].node_range,
                self.subgraphs@[order@[k as int] as int].node_range,
            ),
    {
        let ghost ord = as_ints(order@);
        let ghost full = stack@;
        assert(ord[k as int] == order@[k as int]);
        let range = self.subgraphs[order[k] as usize].node_range;
        while stack.len() > 0
            invariant
                ord == as_ints(order@),
                all_nonempty(self.subgraphs@, ord),
                k < order@.len(),
                range == self.subgraphs@[order@[k as int] as int].node_range,
                stack@.len() <= full.len(),
                stack@ == full.take(stack@.len() as int),
                forall|j: int| 0 <= j < full.len() ==> (#[trigger] full[j]) < k,
                forall|j: int|
                    stack@.len() <= j < full.len() ==> closed_before(
                        self.subgraphs@[order@[#[trigger] full[j] as int] as int].node_range,
                        range,
                    ),
            ensures
                stack@.len() > 0 ==> !closed_before(
                    self.subgraphs@[order@[stack@.last() as int] as int].node_range,
                    range,
                ),
            decreases stack@.len(),
        {
            let top = stack[stack.len() - 1];
            assert(top == full[stack@.len() - 1]);
            assert(ord[top as int] == order@[top as int]);
            let open = self.subgraphs[order[top] as usize].node_range;
            if open.1.0 > range.0.0 && range.1.0 <= open.1.0 {
                break;
            }
            let _ = stack.pop();
            assert(stack@ =~= full.take(stack@.len() as int));
        }
    }

    /// For every subgraph the ranges whose last container in the order it is.
    fn group_by_container(&self, order: &Vec<u32>) -> (children: Vec<Vec<(u32, u32)>>)
        requires
            self.subgraphs@.len() <= u32::MAX,
            as_ints(order@) == nesting_order(self.subgraphs@, self.subgraphs@.len() as int),
        ensures
            children@.len() == self.subgraphs@.len(),
            forall|i: int|
                0 <= i < self.subgraphs@.len() ==> (#[trigger] children@[i])@ == nested_ranges_of(
                    self.subgraphs@,
                    i,
                ),
    {
        let ghost sgs = self.subgraphs@;
        let ghost ord = as_ints(order@);
        proof {
            lemma_order(sgs, sgs.len() as int);
            assert(ord.len() == order@.len());
        }
        let mut children: Vec<Vec<(u32, u32)>> = Vec::new();
        let mut z: usize = 0;
        while z < self.subgraphs.len()
            invariant
                z <= self.subgraphs@.len(),
                children@.len() == z,
                forall|i: int|
                    0 <= i < z ==> (#[trigger] children@[i])@ == Seq::<(u32, u32)>::empty(),
            decreases self.subgraphs.len() - z,
        {
            children.push(Vec::new());
            z = z + 1;
        }
        proof {
            reveal(open_cover);
        }
        // Positions in the order of the open ancestors, outermost first.
        let mut stack: Vec<usize> = Vec::new();
        let mut k: usize = 0;
        while k < order.len()
            invariant
                sgs == self.subgraphs@,
                ord == as_ints(order@),
                sorted_by_range(sgs, ord),
                all_nonempty(sgs, ord),
                k <= order@.len(),
                children@.len() == sgs.len(),
                forall|i: int|
                    0 <= i < sgs.len() ==> (#[trigger] children@[i])@ == nested_in(
                        sgs,
                        ord,
                        i,
                        k as int,
                    ),
                forall|j: int| 0 <= j < stack@.len() ==> (#[trigger] stack@[j]) < k,
                forall|a: int, b: int| 0 <= a < b < stack@.len() ==> stack@[a] < stack@[b],
                k < order@.len() ==> open_cover(sgs, ord, stack@, k as int),
            decreases order.len() - k,
        {
            let idx = order[k] as usize;
            assert(ord[k as int] == idx);
            let range = self.subgraphs[idx].node_range;
            let ghost full = stack@;
            self.pop_closed(order, k, &mut stack);
            proof {
                assert forall|j: int| stack@.len() <= j < full.len() implies closed_before(
                    sgs[ord[#[trigger] full[j] as int]].node_range,
                    sgs[ord[k as int]].node_range,
                ) by {
                    assert(ord[full[j] as int] == order@[full[j] as int]);
                }
                lemma_top_is_container(sgs, ord, full, stack@.len() as int, k as int);
            }
            if stack.len() > 0 {
                let top = stack[stack.len() - 1];
                let parent = order[top] as usize;
                assert(ord[top as int] == parent);
                children[parent].push((range.0.0, range.1.0));
            }
            assert forall|i: int| 0 <= i < sgs.len() implies (#[trigger] children@[i])@
                == nested_in(sgs, ord, i, k + 1) by {
            }
            let ghost kept = stack@;
            stack.push(k);
            proof {
                if k + 1 < order@.len() {
                    lemma_open_cover_next(sgs, ord, full, kept.len() as int, k as int);
                    assert(stack@ =~= full.take(kept.len() as int).push(k));
                }
            }
            k = k + 1;
        }
        children
    }
}

fn range_is_before(a: (NodeId, NodeId), b: (NodeId, NodeId)) -> (r: bool)
    ensures
        r == range_before(a, b),
{
    a.0.0 < b.0.0 || (a.0.0 == b.0.0 && a.1.0 > b.1.0)
}

/// The range `top` has ended before `range`, or does not reach over it.
spec fn closed_before(top: (NodeId, NodeId), range: (NodeId, NodeId)) -> bool {
    top.1.0 <= range.0.0 || range.1.0 > top.1.0
}

/// Whatever an earlier region contains of what is still to come, some open
/// region at or behind it contains too.
#[verifier::opaque]
spec fn open_cover(sgs: Seq<SubGraph>, ord: Seq<int>, stack: Seq<usize>, k: int) -> bool {
    forall|p: int, m: int|
        0 <= p < k <= m < ord.len() && range_within(
            #[trigger] sgs[ord[m]].node_range,
            #[trigger] sgs[ord[p]].node_range,
        ) ==> exists|j: int|
            0 <= j < stack.len() && p <= #[trigger] stack[j] && range_within(
                sgs[ord[m]].node_range,
                sgs[ord[stack[j] as int]].node_range,
            )
}

proof fn lemma_last_container_none(
    sgs: Seq<SubGraph>,
    ord: Seq<int>,
    range: (NodeId, NodeId),
    p: int,
    t: int,
)
    requires
        0 <= t <= p <= ord.len(),
        forall|q: int| t <= q < p ==> !range_within(range, sgs[#[trigger] ord[q]].node_range),
    ensures
        last_container(sgs, ord, range, p) == last_container(sgs, ord, range, t),
    decreases p - t,
{
    if t < p {
        assert(!range_within(range, sgs[ord[p - 1]].node_range));
        lemma_last_container_none(sgs, ord, range, p - 1, t);
    }
}

/// After popping, the top of the stack is the last container of region `k`.
proof fn lemma_top_is_container(
    sgs: Seq<SubGraph>,
    ord: Seq<int>,
    full: Seq<usize>,
    len: int,
    k: int,
)
    requires
        sorted_by_range(sgs, ord),
        all_nonempty(sgs, ord),
        0 <= k < ord.len(),
        0 <= len <= full.len(),
        forall|j: int| 0 <= j < full.len() ==> (#[trigger] full[j]) < k,
        forall|a: int, b: int| 0 <= a < b < full.len() ==> full[a] < full[b],
        open_cover(sgs, ord, full, k),
        forall|j: int|
            len <= j < full.len() ==> closed_before(
                sgs[ord[#[trigger] full[j] as int]].node_range,
                sgs[ord[k]].node_range,
            ),
        len > 0 ==> !closed_before(
            sgs[ord[full[len - 1] as int]].node_range,
            sgs[ord[k]].node_range,
        ),
    ensures
        last_container(sgs, ord, sgs[ord[k]].node_range, k) == if len > 0 {
            Some(ord[full[len - 1] as int])
        } else {
            None
        },
{
    reveal(sorted_by_range);
    reveal(open_cover);
    let range = sgs[ord[k]].node_range;
    let t = if len > 0 {
        full[len - 1] + 1
    } else {
        0int
    };
    assert forall|q: int| t <= q < k implies !range_within(range, sgs[#[trigger] ord[q]].node_range) by {
        if range_within(range, sgs[ord[q]].node_range) {
            let j = choose|j: int|
                0 <= j < full.len() && q <= #[trigger] full[j] && range_within(
                    sgs[ord[k]].node_range,
                    sgs[ord[full[j] as int]].node_range,
                );
            assert(nonempty(sgs[ord[k]].node_range) && 0 <= ord[k]);
            assert(j < len);
            if j < len - 1 {
                assert(full[j] < full[len - 1]);
            }
        }
    }
    lemma_last_container_none(sgs, ord, range, k, t);
    if len > 0 {
        let top = full[len - 1] as int;
        assert(!range_before(sgs[ord[k]].node_range, sgs[ord[top]].node_range));
        assert(range_within(range, sgs[ord[top]].node_range));
        assert(last_container(sgs, ord, range, top + 1) == Some(ord[top]));
    }
}

proof fn lemma_open_cover_next(
    sgs: Seq<SubGraph>,
    ord: Seq<int>,
    full: Seq<usize>,
    len: int,
    k: int,
)
    requires
        sorted_by_range(sgs, ord),
        all_nonempty(sgs, ord),
        0 <= k,
        k + 1 < ord.len() <= usize::MAX,
        0 <= len <= full.len(),
        forall|j: int| 0 <= j < full.len() ==> (#[trigger] full[j]) < k,
        open_cover(sgs, ord, full, k),
        forall|j: int|
            len <= j < full.len() ==> closed_before(
                sgs[ord[#[trigger] full[j] as int]].node_range,
                sgs[ord[k]].node_range,
            ),
    ensures
        open_cover(sgs, ord, full.take(len).push(k as usize), k + 1),
{
    reveal(sorted_by_range);
    reveal(open_cover);
    let next = full.take(len).push(k as usize);
    assert forall|p: int, m: int|
        0 <= p < k + 1 <= m < ord.len() && range_within(
            #[trigger] sgs[ord[m]].node_range,
            #[trigger] sgs[ord[p]].node_range,
        ) implies exists|j: int|
        0 <= j < next.len() && p <= #[trigger] next[j] && range_within(
            sgs[ord[m]].node_range,
            sgs[ord[next[j] as int]].node_range,
        ) by {
        if p == k {
            assert(next[len] == k);
        } else {
            let j = choose|j: int|
                0 <= j < full.len() && p <= #[trigger] full[j] && range_within(
                    sgs[ord[m]].node_range,
                    sgs[ord[full[j] as int]].node_range,
                );
            if j < len {
                assert(next[j] == full[j]);
            } else {
                assert(!range_before(sgs[ord[m]].node_range, sgs[ord[k]].node_range));
                assert(nonempty(sgs[ord[m]].node_range));
                assert(0 <= ord[m] < sgs.len());
                assert(next[len] == k);
            }
        }
    }
}

// ---- extending ranges ------------------------------------------------------

/// The end of a range after nodes up to `new_end` are added to subgraph `sg`:
/// the subgraph itself and every subgraph that contains it reach at least to
/// `new_end`.
pub open spec fn extended_end(
    sgs: Seq<SubGraph>,
    sg: int,
    new_end: u32,
    i: int,
) -> u32 {
    if range_within(sgs[sg].node_range, sgs[i].node_range) && sgs[i].node_range.1.0 < new_end {
        new_end
    } else {
        sgs[i].node_range.1.0
    }
}

impl DataFlowGraph {
    /// Extends the subgraph's range to cover newly appended nodes, and with
    /// it every subgraph that contains it, so that ancestors still contain
    /// their descendants.
    pub fn extend_function_sg_range(&mut self, sg_id: SubGraphId, new_node_end: NodeId)
        requires
            sg_id.0 < old(self).subgraphs@.len(),
        ensures
            final(self).subgraphs@.len() == old(self).subgraphs@.len(),
            forall|i: int| #![trigger final(self).subgraphs@[i]]
                0 <= i < old(self).subgraphs@.len() ==> final(self).subgraphs@[i] == (SubGraph {
                    node_range: (
                        old(self).subgraphs@[i].node_range.0,
                        NodeId(
                            extended_end(
                                old(self).subgraphs@,
                                sg_id.0 as int,
                                new_node_end.0,
                                i,
                            ),
                        ),
                    ),
                    ..old(self).subgraphs@[i]
                }),
            *final(self) == (DataFlowGraph { subgraphs: final(self).subgraphs, ..*old(self) }),
    {
        let target = self.subgraphs[sg_id.0 as usize].node_range;
        let n = self.subgraphs.len();
        let mut i: usize = 0;
        while i < n
            invariant
                sg_id.0 < n == self.subgraphs@.len() == old(self).subgraphs@.len(),
                target == old(self).subgraphs@[sg_id.0 as int].node_range,
                i <= n,
                forall|k: int| #![trigger self.subgraphs@[k]]
                    0 <= k < i ==> self.subgraphs@[k] == (SubGraph {
                        node_range: (
                            old(self).subgraphs@[k].node_range.0,
                            NodeId(
                                extended_end(
                                    old(self).subgraphs@,
                                    sg_id.0 as int,
                                    new_node_end.0,
                                    k,
                                ),
                            ),
                        ),
                        ..old(self).subgraphs@[k]
                    }),
                forall|k: int|
                    i <= k < n ==> #[trigger] self.subgraphs@[k] == old(self).subgraphs@[k],
                *self == (DataFlowGraph { subgraphs: self.subgraphs, ..*old(self) }),
            decreases n - i,
        {
            assert(self.subgraphs@[i as int] == old(self).subgraphs@[i as int]);
            let range = self.subgraphs[i].node_range;
            if range.0.0 <= target.0.0 && target.1.0 <= range.1.0 && range.1.0 < new_node_end.0 {
                let sg = &mut self.subgraphs[i];
                sg.node_range = (range.0, new_node_end);
            }
            i = i + 1;
        }
    }
}

// ---- laws ------------------------------------------------------------------

proof fn lemma_last_container_contains(
    sgs: Seq<SubGraph>,
    ord: Seq<int>,
    range: (NodeId, NodeId),
    p: int,
)
    requires
        0 <= p <= ord.len(),
        last_container(sgs, ord, range, p) is Some,
    ensures
        exists|q: int|
            0 <= q < p && #[trigger] ord[q] == last_container(sgs, ord, range, p)->0 && range_within(
                range,
                sgs[ord[q]].node_range,
            ) && forall|r: int| q < r < p ==> !range_within(range, sgs[#[trigger] ord[r]].node_range),
    decreases p,
{
    if range_within(range, sgs[ord[p - 1]].node_range) {
        assert(ord[p - 1] == last_container(sgs, ord, range, p)->0);
    } else {
        lemma_last_container_contains(sgs, ord, range, p - 1);
        let q = choose|q: int|
            0 <= q < p - 1 && #[trigger] ord[q] == last_container(sgs, ord, range, p - 1)->0
                && range_within(range, sgs[ord[q]].node_range) && forall|r: int|
                q < r < p - 1 ==> !range_within(range, sgs[#[trigger] ord[r]].node_range);
        assert(0 <= q < p && ord[q] == last_container(sgs, ord, range, p)->0);
    }
}

proof fn lemma_nested_in_source(sgs: Seq<SubGraph>, ord: Seq<int>, i: int, m: int, t: int)
    requires
        0 <= m <= ord.len(),
        0 <= t < nested_in(sgs, ord, i, m).len(),
    ensures
        exists|k: int|
            0 <= k < m && nested_in(sgs, ord, i, m)[t] == (
                sgs[#[trigger] ord[k]].node_range.0.0,
                sgs[ord[k]].node_range.1.0,
            ) && last_container(sgs, ord, sgs[ord[k]].node_range, k) == Some(i),
    decreases m,
{
    let before = nested_in(sgs, ord, i, m - 1);
    if t < before.len() {
        lemma_nested_in_source(sgs, ord, i, m - 1, t);
        let k = choose|k: int|
            0 <= k < m - 1 && before[t] == (
                sgs[#[trigger] ord[k]].node_range.0.0,
                sgs[ord[k]].node_range.1.0,
            ) && last_container(sgs, ord, sgs[ord[k]].node_range, k) == Some(i);
        assert(0 <= k < m && nested_in(sgs, ord, i, m)[t] == (
            sgs[ord[k]].node_range.0.0,
            sgs[ord[k]].node_range.1.0,
        ));
    } else {
        assert(sgs[ord[m - 1]].node_range.0.0 == nested_in(sgs, ord, i, m)[t].0);
    }
}

/// A nested range is non-empty, lies inside the subgraph's own range, and is
/// nested directly: no third subgraph's range lies strictly between the two.
pub proof fn law_nested_ranges_are_direct(sgs: Seq<SubGraph>, i: int, t: int, j: int)
    requires
        0 <= i < sgs.len(),
        0 <= j < sgs.len(),
        0 <= t < nested_ranges_of(sgs, i).len(),
    ensures
        ({
            let r = nested_ranges_of(sgs, i)[t];
            let outer = sgs[i].node_range;
            let mid = sgs[j].node_range;
            &&& r.0 < r.1
            &&& outer.0.0 <= r.0 && r.1 <= outer.1.0
            &&& !(mid.0.0 <= r.0 && r.1 <= mid.1.0 && (mid.0.0 != r.0 || mid.1.0 != r.1)
                && range_within(mid, outer) && mid != outer)
        }),
{
    reveal(sorted_by_range);
    let ord = nesting_order(sgs, sgs.len() as int);
    lemma_order(sgs, sgs.len() as int);
    lemma_nested_in_source(sgs, ord, i, ord.len() as int, t);
    let k = choose|k: int|
        0 <= k < ord.len() && nested_ranges_of(sgs, i)[t] == (
            sgs[#[trigger] ord[k]].node_range.0.0,
            sgs[ord[k]].node_range.1.0,
        ) && last_container(sgs, ord, sgs[ord[k]].node_range, k) == Some(i);
    let range = sgs[ord[k]].node_range;
    lemma_last_container_contains(sgs, ord, range, k);
    let q = choose|q: int|
        0 <= q < k && #[trigger] ord[q] == last_container(sgs, ord, range, k)->0 && range_within(
            range,
            sgs[ord[q]].node_range,
        ) && forall|r: int| q < r < k ==> !range_within(range, sgs[#[trigger] ord[r]].node_range);
    let mid = sgs[j].node_range;
    if range_within(range, mid) && mid != range && range_within(mid, sgs[i].node_range) && mid
        != sgs[i].node_range {
        assert(ord.contains(j));
        let b = choose|b: int| 0 <= b < ord.len() && ord[b] == j;
        if b > k {
            assert(!range_before(sgs[ord[b]].node_range, sgs[ord[k]].node_range));
        } else if b < q {
            assert(!range_before(sgs[ord[q]].node_range, sgs[ord[b]].node_range));
        }
        assert(false);
    }
}

/// The non-empty ranges nest: two of them share no node, or one lies within the
/// other.
pub open spec fn ranges_nest(sgs: Seq<SubGraph>) -> bool {
    forall|a: int, b: int|
        0 <= a < sgs.len() && 0 <= b < sgs.len() && nonempty(sgs[a].node_range) && nonempty(sgs[b].node_range)
            ==> nest((#[trigger] sgs[a]).node_range, (#[trigger] sgs[b]).node_range)
}

pub open spec fn nest(a: (NodeId, NodeId), b: (NodeId, NodeId)) -> bool {
    a.1.0 <= b.0.0 || b.1.0 <= a.0.0 || range_within(a, b) || range_within(b, a)
}

/// Whether no other subgraph has the range of subgraph `i`.
pub open spec fn own_range(sgs: Seq<SubGraph>, i: int) -> bool {
    forall|k: int| 0 <= k < sgs.len() && k != i ==> (#[trigger] sgs[k]).node_range != sgs[i].node_range
}

/// Whether the range of subgraph `j` lies directly in that of subgraph `i`:
/// within it, and no third range lies between the two.
pub open spec fn directly_in(sgs: Seq<SubGraph>, i: int, j: int) -> bool {
    &&& nonempty(sgs[j].node_range)
    &&& range_within(sgs[j].node_range, sgs[i].node_range)
    &&& sgs[j].node_range != sgs[i].node_range
    &&& forall|k: int|
        0 <= k < sgs.len() && range_within(sgs[j].node_range, (#[trigger] sgs[k]).node_range) && range_within(
            sgs[k].node_range,
            sgs[i].node_range,
        ) ==> sgs[k].node_range == sgs[j].node_range || sgs[k].node_range == sgs[i].node_range
}

proof fn lemma_last_container_exists(sgs: Seq<SubGraph>, ord: Seq<int>, range: (NodeId, NodeId), b: int, p: int)
    requires
        0 <= b < p <= ord.len(),
        range_within(range, sgs[ord[b]].node_range),
    ensures
        last_container(sgs, ord, range, p) is Some,
        exists|q: int|
            b <= q < p && #[trigger] ord[q] == last_container(sgs, ord, range, p)->0 && range_within(
                range,
                sgs[ord[q]].node_range,
            ),
    decreases p,
{
    if range_within(range, sgs[ord[p - 1]].node_range) {
        assert(ord[p - 1] == last_container(sgs, ord, range, p)->0);
    } else {
        lemma_last_container_exists(sgs, ord, range, b, p - 1);
        let q = choose|q: int|
            b <= q < p - 1 && #[trigger] ord[q] == last_container(sgs, ord, range, p - 1)->0 && range_within(
                range,
                sgs[ord[q]].node_range,
            );
        assert(b <= q < p && ord[q] == last_container(sgs, ord, range, p)->0);
    }
}

proof fn lemma_nested_in_holds(sgs: Seq<SubGraph>, ord: Seq<int>, i: int, k: int, m: int)
    requires
        0 <= k < m <= ord.len(),
        last_container(sgs, ord, sgs[ord[k]].node_range, k) == Some(i),
    ensures
        nested_in(sgs, ord, i, m).contains((sgs[ord[k]].node_range.0.0, sgs[ord[k]].node_range.1.0)),
    decreases m,
{
    let x = (sgs[ord[k]].node_range.0.0, sgs[ord[k]].node_range.1.0);
    if k == m - 1 {
        assert(nested_in(sgs, ord, i, m).last() == x);
    } else {
        lemma_nested_in_holds(sgs, ord, i, k, m - 1);
        let before = nested_in(sgs, ord, i, m - 1);
        let t = choose|t: int| 0 <= t < before.len() && before[t] == x;
        assert(nested_in(sgs, ord, i, m)[t] == x);
    }
}

/// Where the ranges nest, every range that lies directly in that of a subgraph
/// is listed with it. Of subgraphs that share one range, only one can be meant,
/// so both are to have a range of their own.
pub proof fn law_direct_ranges_are_listed(sgs: Seq<SubGraph>, i: int, j: int)
    requires
        0 <= i < sgs.len(),
        0 <= j < sgs.len(),
        ranges_nest(sgs),
        own_range(sgs, i),
        own_range(sgs, j),
        directly_in(sgs, i, j),
    ensures
        nested_ranges_of(sgs, i).contains((sgs[j].node_range.0.0, sgs[j].node_range.1.0)),
{
    reveal(sorted_by_range);
    let ord = nesting_order(sgs, sgs.len() as int);
    lemma_order(sgs, sgs.len() as int);
    let inner = sgs[j].node_range;
    let outer = sgs[i].node_range;
    assert(nonempty(outer));
    assert(ord.contains(i) && ord.contains(j));
    let b = choose|b: int| 0 <= b < ord.len() && ord[b] == i;
    let k = choose|k: int| 0 <= k < ord.len() && ord[k] == j;
    if k < b {
        assert(!range_before(sgs[ord[b]].node_range, sgs[ord[k]].node_range));
        assert(false);
    }
    assert(b < k);
    lemma_last_container_exists(sgs, ord, inner, b, k);
    let q = choose|q: int|
        b <= q < k && #[trigger] ord[q] == last_container(sgs, ord, inner, k)->0 && range_within(
            inner,
            sgs[ord[q]].node_range,
        );
    let p = ord[q];
    if p != i {
        assert(0 <= p < sgs.len() && nonempty(sgs[p].node_range));
        assert(nest(sgs[p].node_range, sgs[i].node_range));
        assert(!range_before(sgs[ord[q]].node_range, sgs[ord[b]].node_range));
        assert(sgs[p].node_range != outer);
        assert(range_within(sgs[p].node_range, outer));
        assert(sgs[p].node_range == inner);
        if p == j {
            lemma_order_once(sgs, sgs.len() as int, q, k);
        }
        assert(false);
    }
    lemma_nested_in_holds(sgs, ord, i, k, ord.len() as int);
}

proof fn lemma_insert_once(sgs: Seq<SubGraph>, order: Seq<int>, x: int)
    requires
        order.no_duplicates(),
        !order.contains(x),
    ensures
        insert_region(sgs, order, x).no_duplicates(),
        forall|y: int| #[trigger] insert_region(sgs, order, x).contains(y) <==> order.contains(y) || y == x,
    decreases order.len(),
{
    if order.len() == 0 || !range_before(sgs[x].node_range, sgs[order.last()].node_range) {
        let r = order.push(x);
        assert forall|y: int| #[trigger] r.contains(y) <==> order.contains(y) || y == x by {
            assert(r[order.len() as int] == x);
            if order.contains(y) {
                let t = choose|t: int| 0 <= t < order.len() && order[t] == y;
                assert(r[t] == y);
            }
        }
    } else {
        let rest = order.drop_last();
        assert(!rest.contains(x)) by {
            if rest.contains(x) {
                let t = choose|t: int| 0 <= t < rest.len() && rest[t] == x;
                assert(order[t] == x);
            }
        }
        lemma_insert_once(sgs, rest, x);
        let ins = insert_region(sgs, rest, x);
        let r = ins.push(order.last());
        assert(!ins.contains(order.last())) by {
            if rest.contains(order.last()) {
                let t = choose|t: int| 0 <= t < rest.len() && rest[t] == order.last();
                assert(order[t] == order[order.len() - 1]);
            }
            assert(order[order.len() - 1] != x) by {
                assert(order.contains(order[order.len() - 1]));
            }
        }
        assert forall|a: int, b: int| 0 <= a < r.len() && 0 <= b < r.len() && a != b implies r[a] != r[b] by {
            if a < ins.len() {
                assert(ins.contains(ins[a]));
            }
            if b < ins.len() {
                assert(ins.contains(ins[b]));
            }
        }
        assert forall|y: int| #[trigger] r.contains(y) <==> order.contains(y) || y == x by {
            assert(r[ins.len() as int] == order.last());
            if ins.contains(y) {
                let t = choose|t: int| 0 <= t < ins.len() && ins[t] == y;
                assert(r[t] == y);
            }
            if order.contains(y) {
                let t = choose|t: int| 0 <= t < order.len() && order[t] == y;
                if t < rest.len() {
                    assert(rest[t] == y);
                    assert(ins.contains(y));
                }
            }
            if r.contains(y) && y != order.last() {
                let t = choose|t: int| 0 <= t < r.len() && r[t] == y;
                assert(ins[t] == y);
                assert(ins.contains(y));
                if y != x {
                    let u = choose|u: int| 0 <= u < rest.len() && rest[u] == y;
                    assert(order[u] == y);
                }
            }
            if y == order.last() {
                assert(order[order.len() - 1] == y);
            }
        }
    }
}

proof fn lemma_order_distinct(sgs: Seq<SubGraph>, n: int)
    requires
        0 <= n <= sgs.len(),
    ensures
        nesting_order(sgs, n).no_duplicates(),
        forall|y: int| #[trigger] nesting_order(sgs, n).contains(y) ==> 0 <= y < n,
    decreases n,
{
    if n > 0 {
        lemma_order_distinct(sgs, n - 1);
        if nonempty(sgs[n - 1].node_range) {
            lemma_insert_once(sgs, nesting_order(sgs, n - 1), n - 1);
        }
    }
}

proof fn lemma_order_once(sgs: Seq<SubGraph>, n: int, a: int, b: int)
    requires
        0 <= n <= sgs.len(),
        0 <= a < nesting_order(sgs, n).len(),
        0 <= b < nesting_order(sgs, n).len(),
        nesting_order(sgs, n)[a] == nesting_order(sgs, n)[b],
    ensures
        a == b,
{
    lemma_order_distinct(sgs, n);
}

proof fn lemma_nested_sources(sgs: Seq<SubGraph>, ord: Seq<int>, i: int, m: int, t: int, u: int)
    requires
        0 <= m <= ord.len(),
        0 <= t < u < nested_in(sgs, ord, i, m).len(),
    ensures
        exists|k: int, l: int|
            0 <= k < l < m && nested_in(sgs, ord, i, m)[t] == (
                sgs[#[trigger] ord[k]].node_range.0.0,
                sgs[ord[k]].node_range.1.0,
            ) && nested_in(sgs, ord, i, m)[u] == (
                sgs[#[trigger] ord[l]].node_range.0.0,
                sgs[ord[l]].node_range.1.0,
            ) && last_container(sgs, ord, sgs[ord[k]].node_range, k) == Some(i) && last_container(
                sgs,
                ord,
                sgs[ord[l]].node_range,
                l,
            ) == Some(i),
    decreases m,
{
    let before = nested_in(sgs, ord, i, m - 1);
    if u < before.len() {
        lemma_nested_sources(sgs, ord, i, m - 1, t, u);
        let (k, l) = choose|k: int, l: int|
            0 <= k < l < m - 1 && before[t] == (
                sgs[#[trigger] ord[k]].node_range.0.0,
                sgs[ord[k]].node_range.1.0,
            ) && before[u] == (sgs[#[trigger] ord[l]].node_range.0.0, sgs[ord[l]].node_range.1.0)
                && last_container(sgs, ord, sgs[ord[k]].node_range, k) == Some(i) && last_container(
                sgs,
                ord,
                sgs[ord[l]].node_range,
                l,
            ) == Some(i);
        assert(nested_in(sgs, ord, i, m)[t] == (sgs[ord[k]].node_range.0.0, sgs[ord[k]].node_range.1.0));
        assert(nested_in(sgs, ord, i, m)[u] == (sgs[ord[l]].node_range.0.0, sgs[ord[l]].node_range.1.0));
    } else {
        lemma_nested_in_source(sgs, ord, i, m - 1, t);
        let k = choose|k: int|
            0 <= k < m - 1 && before[t] == (
                sgs[#[trigger] ord[k]].node_range.0.0,
                sgs[ord[k]].node_range.1.0,
            ) && last_container(sgs, ord, sgs[ord[k]].node_range, k) == Some(i);
        assert(nested_in(sgs, ord, i, m)[t] == (sgs[ord[k]].node_range.0.0, sgs[ord[k]].node_range.1.0));
        assert(nested_in(sgs, ord, i, m)[u] == (
            sgs[ord[m - 1]].node_range.0.0,
            sgs[ord[m - 1]].node_range.1.0,
        ));
    }
}

/// The nested ranges of a subgraph come in the order of their starts, the wider
/// one first where two start together.
pub proof fn law_nested_ranges_ascend(sgs: Seq<SubGraph>, i: int, t: int, u: int)
    requires
        0 <= i < sgs.len(),
        0 <= t < u < nested_ranges_of(sgs, i).len(),
    ensures
        ({
            let a = nested_ranges_of(sgs, i)[t];
            let b = nested_ranges_of(sgs, i)[u];
            a.0 < b.0 || a.0 == b.0 && a.1 >= b.1
        }),
{
    reveal(sorted_by_range);
    let ord = nesting_order(sgs, sgs.len() as int);
    lemma_order(sgs, sgs.len() as int);
    lemma_nested_sources(sgs, ord, i, ord.len() as int, t, u);
    let (k, l) = choose|k: int, l: int|
        0 <= k < l < ord.len() && nested_ranges_of(sgs, i)[t] == (
            sgs[#[trigger] ord[k]].node_range.0.0,
            sgs[ord[k]].node_range.1.0,
        ) && nested_ranges_of(sgs, i)[u] == (sgs[#[trigger] ord[l]].node_range.0.0, sgs[ord[l]].node_range.1.0)
            && last_container(sgs, ord, sgs[ord[k]].node_range, k) == Some(i) && last_container(
            sgs,
            ord,
            sgs[ord[l]].node_range,
            l,
        ) == Some(i);
    assert(!range_before(sgs[ord[l]].node_range, sgs[ord[k]].node_range));
}

/// Of two ranges with the same container, the later one does not lie within the
/// other, which would be its container.
proof fn lemma_not_within_sibling(sgs: Seq<SubGraph>, i: int, k: int, l: int)
    requires
        ({
            let ord = nesting_order(sgs, sgs.len() as int);
            &&& 0 <= k < l < ord.len()
            &&& last_container(sgs, ord, sgs[ord[k]].node_range, k) == Some(i)
            &&& last_container(sgs, ord, sgs[ord[l]].node_range, l) == Some(i)
        }),
    ensures
        ({
            let ord = nesting_order(sgs, sgs.len() as int);
            !range_within(sgs[ord[l]].node_range, sgs[ord[k]].node_range)
        }),
{
    let ord = nesting_order(sgs, sgs.len() as int);
    let a = sgs[ord[k]].node_range;
    let b = sgs[ord[l]].node_range;
    if range_within(b, a) {
        lemma_last_container_exists(sgs, ord, b, k, l);
        let q = choose|q: int|
            k <= q < l && #[trigger] ord[q] == last_container(sgs, ord, b, l)->0 && range_within(
                b,
                sgs[ord[q]].node_range,
            );
        lemma_last_container_contains(sgs, ord, a, k);
        let c = choose|c: int|
            0 <= c < k && #[trigger] ord[c] == last_container(sgs, ord, a, k)->0 && range_within(
                a,
                sgs[ord[c]].node_range,
            ) && forall|r: int| c < r < k ==> !range_within(a, sgs[#[trigger] ord[r]].node_range);
        lemma_order_once(sgs, sgs.len() as int, q, c);
    }
}

/// Where the ranges nest, the nested ranges of a subgraph share no node: each
/// ends before the next one starts.
pub proof fn law_nested_ranges_are_apart(sgs: Seq<SubGraph>, i: int, t: int, u: int)
    requires
        0 <= i < sgs.len(),
        ranges_nest(sgs),
        0 <= t < u < nested_ranges_of(sgs, i).len(),
    ensures
        nested_ranges_of(sgs, i)[t].1 <= nested_ranges_of(sgs, i)[u].0,
{
    law_nested_ranges_ascend(sgs, i, t, u);
    let ord = nesting_order(sgs, sgs.len() as int);
    lemma_nested_sources(sgs, ord, i, ord.len() as int, t, u);
    let (k, l) = choose|k: int, l: int|
        0 <= k < l < ord.len() && nested_ranges_of(sgs, i)[t] == (
            sgs[#[trigger] ord[k]].node_range.0.0,
            sgs[ord[k]].node_range.1.0,
        ) && nested_ranges_of(sgs, i)[u] == (sgs[#[trigger] ord[l]].node_range.0.0, sgs[ord[l]].node_range.1.0)
            && last_container(sgs, ord, sgs[ord[k]].node_range, k) == Some(i) && last_container(
            sgs,
            ord,
            sgs[ord[l]].node_range,
            l,
        ) == Some(i);
    lemma_not_within_sibling(sgs, i, k, l);
    lemma_ranges_of_order(sgs, k, l);
}

proof fn lemma_ranges_of_order(sgs: Seq<SubGraph>, k: int, l: int)
    requires
        ranges_nest(sgs),
        0 <= k < nesting_order(sgs, sgs.len() as int).len(),
        0 <= l < nesting_order(sgs, sgs.len() as int).len(),
    ensures
        ({
            let ord = nesting_order(sgs, sgs.len() as int);
            &&& nonempty(sgs[ord[k]].node_range)
            &&& nonempty(sgs[ord[l]].node_range)
            &&& nest(sgs[ord[k]].node_range, sgs[ord[l]].node_range)
        }),
{
    let ord = nesting_order(sgs, sgs.len() as int);
    lemma_order(sgs, sgs.len() as int);
    let (x, y) = (ord[k], ord[l]);
    assert(0 <= x < sgs.len() && 0 <= y < sgs.len());
    assert(nest(sgs[x].node_range, sgs[y].node_range));
}

/// Extending a subgraph keeps containment: whatever contained it, and itself,
/// contains the extended range.
pub proof fn law_extension_keeps_ancestors(
    sgs: Seq<SubGraph>,
    sg: int,
    new_end: u32,
    anc: int,
)
    requires
        range_within(sgs[sg].node_range, sgs[anc].node_range),
    ensures
        sgs[anc].node_range.0.0 <= sgs[sg].node_range.0.0,
        extended_end(sgs, sg, new_end, sg) <= extended_end(sgs, sg, new_end, anc),
        new_end <= extended_end(sgs, sg, new_end, anc),
{
}

} // verus!
