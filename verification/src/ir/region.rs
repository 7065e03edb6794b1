//! Region tree and structural dominance.
//!
//! Subgraph ranges nest, which yields a containment tree. Region A dominates
//! region B iff they are the same region or A's range strictly contains B's;
//! sibling regions never dominate each other. Ranges may overlap without
//! nesting; only strict containment counts.

use vstd::prelude::*;

use crate::ir::graph::DataFlowGraph;
use crate::ir::types::SubGraphId;

verus! {

/// Whether `outer` contains `inner` and is not the same range.
pub open spec fn strictly_contains(outer: (u32, u32), inner: (u32, u32)) -> bool {
    outer.0 <= inner.0 && inner.1 <= outer.1 && outer != inner
}

pub open spec fn is_empty_range(r: (u32, u32)) -> bool {
    r.0 >= r.1
}

/// `best` is the smallest of the ranges that `wanted` admits, the first of
/// them where several are equally small; none where none is admitted.
pub open spec fn smallest_range(
    ranges: Seq<(u32, u32)>,
    wanted: spec_fn(int) -> bool,
    best: Option<SubGraphId>,
) -> bool {
    match best {
        None => forall|i: int| 0 <= i < ranges.len() ==> !#[trigger] wanted(i),
        Some(b) => {
            &&& b.0 < ranges.len()
            &&& wanted(b.0 as int)
            &&& forall|i: int|
                0 <= i < ranges.len() && #[trigger] wanted(i) ==> {
                    let x = ranges[b.0 as int].1 - ranges[b.0 as int].0;
                    let y = ranges[i].1 - ranges[i].0;
                    x < y || x == y && b.0 <= i
                }
        },
    }
}

/// Region `j` is non-empty and strictly contains region `i`.
pub open spec fn may_parent(ranges: Seq<(u32, u32)>, i: int) -> spec_fn(int) -> bool {
    |j: int| !is_empty_range(ranges[j]) && strictly_contains(ranges[j], ranges[i])
}

/// Region `j` is non-empty and contains the node.
pub open spec fn covers(ranges: Seq<(u32, u32)>, node: int) -> spec_fn(int) -> bool {
    |j: int| ranges[j].0 <= node < ranges[j].1
}

/// The parent of region `i`: the smallest region that strictly contains it.
/// An empty region has none.
pub open spec fn parent_is(ranges: Seq<(u32, u32)>, i: int, p: Option<SubGraphId>) -> bool {
    if is_empty_range(ranges[i]) {
        p is None
    } else {
        smallest_range(ranges, may_parent(ranges, i), p)
    }
}

/// Structural dominance of regions.
pub open spec fn region_dominates(ranges: Seq<(u32, u32)>, a: int, b: int) -> bool {
    a == b || strictly_contains(ranges[a], ranges[b])
}

/// The node ranges of the graph's subgraphs.
pub open spec fn graph_ranges(g: &DataFlowGraph) -> Seq<(u32, u32)> {
    Seq::new(
        g.subgraphs@.len(),
        |i: int| (g.subgraphs@[i].node_range.0.0, g.subgraphs@[i].node_range.1.0),
    )
}

/// Containment-based region tree over subgraph node ranges.
#[derive(Debug)]
pub struct RegionTree {
    parent: Vec<Option<SubGraphId>>,
    ranges: Vec<(u32, u32)>,
}

impl RegionTree {
    /// The range of every region.
    pub closed spec fn spec_ranges(&self) -> Seq<(u32, u32)> {
        self.ranges@
    }

    #[verifier::type_invariant]
    spec fn consistent(&self) -> bool {
        &&& self.parent@.len() == self.ranges@.len() <= u32::MAX
        &&& forall|i: int|
            0 <= i < self.ranges@.len() ==> parent_is(self.ranges@, i, #[trigger] self.parent@[i])
    }

    /// Builds the tree from the graph's subgraph ranges.
    pub fn build(graph: &DataFlowGraph) -> (r: Self)
        requires
            graph.subgraphs@.len() <= u32::MAX,
        ensures
            r.spec_ranges() == graph_ranges(graph),
    {
        let n = graph.subgraphs.len();
        let mut ranges: Vec<(u32, u32)> = Vec::new();
        let mut k: usize = 0;
        while k < n
            invariant
                n == graph.subgraphs@.len(),
                k <= n,
                ranges@ == graph_ranges(graph).take(k as int),
            decreases n - k,
        {
            let range = graph.subgraphs[k].node_range;
            ranges.push((range.0.0, range.1.0));
            assert(ranges@ =~= graph_ranges(graph).take(k + 1));
            k = k + 1;
        }
        assert(ranges@ =~= graph_ranges(graph));
        let mut parent: Vec<Option<SubGraphId>> = Vec::new();
        let mut i: usize = 0;
        while i < n
            invariant
                n == ranges@.len() <= u32::MAX,
                i <= n,
                parent@.len() == i,
                forall|q: int| 0 <= q < i ==> parent_is(ranges@, q, #[trigger] parent@[q]),
            decreases n - i,
        {
            let p = RegionTree::find_parent(&ranges, i);
            parent.push(p);
            i = i + 1;
        }
        RegionTree { parent, ranges }
    }

    fn find_parent(ranges: &Vec<(u32, u32)>, i: usize) -> (best: Option<SubGraphId>)
        requires
            i < ranges@.len() <= u32::MAX,
        ensures
            parent_is(ranges@, i as int, best),
    {
        let (is, ie) = ranges[i];
        if is >= ie {
            return None;
        }
        let mut best: Option<SubGraphId> = None;
        let mut j: usize = 0;
        while j < ranges.len()
            invariant
                j <= ranges@.len() <= u32::MAX,
                i < ranges@.len(),
                (is, ie) == ranges@[i as int],
                best is Some ==> (best->0).0 < j && may_parent(ranges@, i as int)(
                    (best->0).0 as int,
                ),
                forall|k: int|
                    0 <= k < j && #[trigger] may_parent(ranges@, i as int)(k) ==> {
                        &&& best is Some
                        &&& {
                            let x = ranges@[(best->0).0 as int];
                            let y = ranges@[k];
                            x.1 - x.0 < y.1 - y.0 || x.1 - x.0 == y.1 - y.0 && (best->0).0 <= k
                        }
                    },
            decreases ranges@.len() - j,
        {
            let (js, je) = ranges[j];
            if js < je && js <= is && ie <= je && (js != is || je != ie) {
                assert(may_parent(ranges@, i as int)(j as int));
                let closer = match best {
                    None => true,
                    Some(b) => {
                        assert(may_parent(ranges@, i as int)(b.0 as int));
                        let (bs, be) = ranges[b.0 as usize];
                        je - js < be - bs
                    },
                };
                if closer {
                    best = Some(SubGraphId(j as u32));
                }
            }
            j = j + 1;
        }
        best
    }

    /// Range of a region.
    pub fn range(&self, sg: SubGraphId) -> (r: (u32, u32))
        requires
            sg.0 < self.spec_ranges().len(),
        ensures
            r == self.spec_ranges()[sg.0 as int],
    {
        self.ranges[sg.0 as usize]
    }

    /// Immediate (smallest strictly containing) parent region.
    pub fn parent_of(&self, sg: SubGraphId) -> (r: Option<SubGraphId>)
        requires
            sg.0 < self.spec_ranges().len(),
        ensures
            parent_is(self.spec_ranges(), sg.0 as int, r),
    {
        proof {
            use_type_invariant(self);
        }
        self.parent[sg.0 as usize]
    }

    /// Whether A strictly contains B in the region tree.
    pub fn is_ancestor(&self, a: SubGraphId, b: SubGraphId) -> (r: bool)
        requires
            a.0 < self.spec_ranges().len(),
            b.0 < self.spec_ranges().len(),
        ensures
            r == strictly_contains(
                self.spec_ranges()[a.0 as int],
                self.spec_ranges()[b.0 as int],
            ),
    {
        let (as_, ae) = self.ranges[a.0 as usize];
        let (bs, be) = self.ranges[b.0 as usize];
        as_ <= bs && be <= ae && (as_ != bs || ae != be)
    }

    /// Structural dominance: A dominates B iff they are the same region or A
    /// is an ancestor of B.
    pub fn dominates(&self, a: SubGraphId, b: SubGraphId) -> (r: bool)
        requires
            a.0 < self.spec_ranges().len(),
            b.0 < self.spec_ranges().len(),
        ensures
            r == region_dominates(self.spec_ranges(), a.0 as int, b.0 as int),
    {
        a == b || self.is_ancestor(a, b)
    }

    /// For every node the innermost region, or none when the node lies
    /// outside every region.
    pub fn innermost_all(&self, node_count: usize) -> (r: Vec<Option<SubGraphId>>)
        ensures
            r@.len() == node_count,
            forall|k: int|
                0 <= k < node_count ==> smallest_range(
                    self.spec_ranges(),
                    covers(self.spec_ranges(), k),
                    #[trigger] r@[k],
                ),
    {
        proof {
            use_type_invariant(self);
        }
        let mut best: Vec<Option<SubGraphId>> = Vec::new();
        let mut z: usize = 0;
        while z < node_count
            invariant
                z <= node_count,
                best@.len() == z,
                forall|k: int| 0 <= k < z ==> #[trigger] best@[k] is None,
            decreases node_count - z,
        {
            best.push(None);
            z = z + 1;
        }
        let ghost ranges = self.ranges@;
        let mut si: usize = 0;
        while si < self.ranges.len()
            invariant
                ranges == self.ranges@,
                si <= ranges.len() <= u32::MAX,
                best@.len() == node_count,
                forall|k: int|
                    0 <= k < node_count ==> smallest_range(
                        ranges.take(si as int),
                        covers(ranges.take(si as int), k),
                        #[trigger] best@[k],
                    ),
            decreases ranges.len() - si,
        {
            let (start, end) = self.ranges[si];
            let ghost seen = ranges.take(si as int);
            let ghost next = ranges.take(si + 1);
            let ghost was = best@;
            let mut nid: u32 = start;
            let stop: usize = if (end as usize) < node_count {
                end as usize
            } else {
                node_count
            };
            while (nid as usize) < stop
                invariant
                    ranges == self.ranges@,
                    seen == ranges.take(si as int),
                    next == ranges.take(si + 1),
                    si < ranges.len() <= u32::MAX,
                    (start, end) == ranges[si as int],
                    start <= nid,
                    stop <= node_count,
                    stop <= end,
                    stop == end || stop == node_count,
                    nid <= stop || nid == start,
                    best@.len() == was.len() == node_count,
                    forall|k: int|
                        0 <= k < node_count ==> smallest_range(
                            seen,
                            covers(seen, k),
                            #[trigger] was[k],
                        ),
                    forall|k: int|
                        start <= k < nid && k < node_count ==> smallest_range(
                            next,
                            covers(next, k),
                            #[trigger] best@[k],
                        ),
                    forall|k: int|
                        0 <= k < node_count && !(start <= k < nid) ==> #[trigger] best@[k]
                            == was[k],
                decreases stop - nid,
            {
                let idx = nid as usize;
                assert(smallest_range(seen, covers(seen, idx as int), was[idx as int]));
                assert(best@[idx as int] == was[idx as int]);
                let closer = match best[idx] {
                    None => true,
                    Some(b) => {
                        assert(b.0 < seen.len());
                        assert(covers(seen, idx as int)(b.0 as int));
                        let (bs, be) = self.ranges[b.0 as usize];
                        end - start < be - bs
                    },
                };
                if closer {
                    best.set(idx, Some(SubGraphId(si as u32)));
                }
                proof {
                    assert forall|i: int| 0 <= i < next.len() && #[trigger] covers(
                        next,
                        idx as int,
                    )(i) implies i == si || covers(seen, idx as int)(i) by {
                        if i != si {
                            assert(seen[i] == next[i]);
                        }
                    }
                    assert(covers(next, idx as int)(si as int));
                    assert forall|i: int| 0 <= i < seen.len() implies seen[i] == next[i] by {
                    }
                    if was[idx as int] is Some {
                        assert(covers(next, idx as int)((was[idx as int]->0).0 as int));
                    }
                    assert(smallest_range(next, covers(next, idx as int), best@[idx as int]));
                }
                nid = nid + 1;
            }
            assert forall|k: int| 0 <= k < node_count implies smallest_range(
                next,
                covers(next, k),
                #[trigger] best@[k],
            ) by {
                if !(start <= k < nid) {
                    assert(best@[k] == was[k]);
                    assert(smallest_range(seen, covers(seen, k), was[k]));
                    assert(!(start <= k < end));
                    assert forall|i: int| 0 <= i < next.len() && #[trigger] covers(next, k)(i) implies covers(
                    seen, k)(i) by {
                        assert(i != si);
                        assert(seen[i] == next[i]);
                    }
                    if was[k] is Some {
                        assert(covers(seen, k)((was[k]->0).0 as int));
                        assert(seen[(was[k]->0).0 as int] == next[(was[k]->0).0 as int]);
                        assert(covers(next, k)((was[k]->0).0 as int));
                        assert forall|i: int| 0 <= i < seen.len() implies seen[i] == next[i] by {
                        }
                    }
                }
            }
            si = si + 1;
        }
        assert(ranges.take(ranges.len() as int) =~= ranges);
        best
    }
}

// ---- laws ------------------------------------------------------------------

/// Every region dominates itself.
pub proof fn law_dominance_is_reflexive(ranges: Seq<(u32, u32)>, a: int)
    ensures
        region_dominates(ranges, a, a),
{
}

/// Dominance composes.
pub proof fn law_dominance_is_transitive(ranges: Seq<(u32, u32)>, a: int, b: int, c: int)
    requires
        region_dominates(ranges, a, b),
        region_dominates(ranges, b, c),
    ensures
        region_dominates(ranges, a, c),
{
}

/// Two regions that dominate each other are the same region.
pub proof fn law_dominance_is_antisymmetric(ranges: Seq<(u32, u32)>, a: int, b: int)
    requires
        region_dominates(ranges, a, b),
        region_dominates(ranges, b, a),
    ensures
        a == b,
{
}

/// Sibling regions never dominate each other: of two non-empty regions that
/// share no node, neither dominates the other.
pub proof fn law_siblings_never_dominate(ranges: Seq<(u32, u32)>, a: int, b: int)
    requires
        !is_empty_range(ranges[a]),
        !is_empty_range(ranges[b]),
        ranges[a].1 <= ranges[b].0 || ranges[b].1 <= ranges[a].0,
    ensures
        !region_dominates(ranges, a, b),
        !region_dominates(ranges, b, a),
{
}

/// The parent of a region dominates it.
pub proof fn law_parent_dominates(ranges: Seq<(u32, u32)>, i: int, p: SubGraphId)
    requires
        0 <= i < ranges.len(),
        parent_is(ranges, i, Some(p)),
    ensures
        region_dominates(ranges, p.0 as int, i),
        p.0 != i,
{
    assert(may_parent(ranges, i)(p.0 as int));
}

} // verus!
