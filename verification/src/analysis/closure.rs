//! What can be reached along the edges of a graph that is given by lists of
//! successors.

use super::tables::FuncId;
use crate::fx::{IdSet, Table};
use vstd::prelude::*;

verus! {

/// The successors of `a`, in order.
pub open spec fn succ(t: Map<u32, Vec<FuncId>>, a: u32) -> Seq<FuncId> {
    if t.contains_key(a) {
        t[a]@
    } else {
        seq![]
    }
}

pub open spec fn edge(t: Map<u32, Vec<FuncId>>, a: u32, b: u32) -> bool {
    succ(t, a).contains(FuncId(b))
}

/// No edge leaves the set.
pub open spec fn closed(t: Map<u32, Vec<FuncId>>, s: Set<u32>) -> bool {
    forall|a: u32, b: u32| s.contains(a) && #[trigger] edge(t, a, b) ==> s.contains(b)
}

/// The least set that holds the seeds and that no edge leaves.
pub open spec fn reach_from(t: Map<u32, Vec<FuncId>>, seeds: Set<u32>) -> Set<u32> {
    Set::new(
        |x: u32| forall|s: Set<u32>| #[trigger] closed(t, s) && seeds.subset_of(s) ==> s.contains(x),
    )
}

/// The set of the items of a list.
pub open spec fn ids(s: Seq<u32>) -> Set<u32> {
    Set::new(|x: u32| s.contains(x))
}

/// What is reached from the seeds holds them, no edge leaves it, and it is the
/// least such set.
pub proof fn law_reach_from_is_least(t: Map<u32, Vec<FuncId>>, seeds: Set<u32>, s: Set<u32>)
    ensures
        seeds.subset_of(reach_from(t, seeds)),
        closed(t, reach_from(t, seeds)),
        closed(t, s) && seeds.subset_of(s) ==> reach_from(t, seeds).subset_of(s),
{
    let r = reach_from(t, seeds);
    assert forall|a: u32, b: u32| r.contains(a) && #[trigger] edge(t, a, b) implies r.contains(b) by {
        assert forall|q: Set<u32>| #[trigger] closed(t, q) && seeds.subset_of(q) implies q.contains(b) by {
            assert(q.contains(a));
        }
    }
}

/// What is reached from something reached is reached.
pub proof fn law_reach_from_is_transitive(t: Map<u32, Vec<FuncId>>, a: u32, b: u32, c: u32)
    requires
        reach_from(t, set![a]).contains(b),
        reach_from(t, set![b]).contains(c),
    ensures
        reach_from(t, set![a]).contains(c),
{
    let r = reach_from(t, set![a]);
    law_reach_from_is_least(t, set![a], r);
    assert(set![b].subset_of(r));
}

/// `r` holds the edges of `t` turned round.
pub open spec fn converse(t: Map<u32, Vec<FuncId>>, r: Map<u32, Vec<FuncId>>) -> bool {
    forall|a: u32, b: u32| #[trigger] edge(t, a, b) <==> edge(r, b, a)
}

proof fn lemma_back_is_forth(t: Map<u32, Vec<FuncId>>, r: Map<u32, Vec<FuncId>>, v: u32, w: u32)
    requires
        forall|a: u32, b: u32| #[trigger] edge(r, b, a) ==> edge(t, a, b),
        reach_from(r, set![v]).contains(w),
    ensures
        reach_from(t, set![w]).contains(v),
{
    let s = Set::new(|x: u32| reach_from(t, set![x]).contains(v));
    law_reach_from_is_least(t, set![v], set![]);
    assert(s.contains(v)) by {
        assert(set![v].contains(v));
    }
    assert forall|b: u32, a: u32| s.contains(b) && #[trigger] edge(r, b, a) implies s.contains(a) by {
        assert(edge(t, a, b));
        law_reach_from_is_least(t, set![a], set![]);
        assert(set![a].contains(a));
        assert(reach_from(t, set![a]).contains(b));
        law_reach_from_is_transitive(t, a, b, v);
    }
    assert(closed(r, s));
    assert(set![v].subset_of(s));
}

/// In the graph with all edges turned round, the ways are those of the graph,
/// turned round.
pub proof fn law_converse_turns_ways_round(t: Map<u32, Vec<FuncId>>, r: Map<u32, Vec<FuncId>>, v: u32, w: u32)
    requires
        converse(t, r),
    ensures
        reach_from(r, set![v]).contains(w) <==> reach_from(t, set![w]).contains(v),
{
    if reach_from(r, set![v]).contains(w) {
        assert forall|a: u32, b: u32| #[trigger] edge(r, b, a) implies edge(t, a, b) by {
            assert(edge(t, a, b) || !edge(t, a, b));
        }
        lemma_back_is_forth(t, r, v, w);
    }
    if reach_from(t, set![w]).contains(v) {
        lemma_back_is_forth(r, t, w, v);
    }
}

/// What was found from the seeds, in the order in which it was found.
#[derive(Debug)]
pub struct Closure {
    pub found: Vec<u32>,
    /// For each id found, the one from which it was found; a seed has none.
    pub parents: Vec<Option<u32>>,
    pub set: IdSet,
}

/// The ids from which `k` may have been found: those found before.
pub open spec fn found_from(t: Map<u32, Vec<FuncId>>, found: Seq<u32>, k: int, p: Option<u32>) -> bool {
    match p {
        Some(a) => found.take(k).contains(a) && edge(t, a, found[k]),
        None => true,
    }
}

impl Closure {
    /// What was found is what can be reached from the seeds. It is listed once;
    /// what is no seed was found along an edge from something found before.
    pub open spec fn of(self, t: Map<u32, Vec<FuncId>>, seeds: Seq<u32>) -> bool {
        &&& self.set@ == reach_from(t, ids(seeds))
        &&& self.set@ == ids(self.found@)
        &&& self.found@.no_duplicates()
        &&& self.parents@.len() == self.found@.len()
        &&& forall|k: int|
            0 <= k < self.found@.len() ==> found_from(t, self.found@, k, #[trigger] self.parents@[k])
        &&& forall|k: int|
            0 <= k < self.found@.len() && (#[trigger] self.parents@[k]) is None ==> seeds.contains(self.found@[k])
        &&& forall|k: int|
            0 <= k < self.found@.len() && (#[trigger] self.parents@[k]) is Some ==> !seeds.contains(self.found@[k])
    }
}

proof fn lemma_ids_fit(s: Seq<u32>)
    requires
        s.no_duplicates(),
    ensures
        s.len() <= 0x1_0000_0000,
{
    let t = s.map_values(|x: u32| x as int);
    assert(t.no_duplicates()) by {
        assert forall|i: int, j: int| 0 <= i < t.len() && 0 <= j < t.len() && i != j implies t[i] != t[j] by {
            assert(s[i] != s[j]);
        }
    }
    t.unique_seq_to_set();
    let all = vstd::set_lib::set_int_range(0, 0x1_0000_0000);
    vstd::set_lib::lemma_int_range(0, 0x1_0000_0000);
    assert(t.to_set().subset_of(all));
    vstd::set_lib::lemma_len_subset(t.to_set(), all);
}

/// Adds an id that was not found before.
fn find(c: &mut Closure, id: u32, from: Option<u32>) -> (new: bool)
    requires
        old(c).set@ == ids(old(c).found@),
        old(c).found@.no_duplicates(),
        old(c).parents@.len() == old(c).found@.len(),
    ensures
        new == !old(c).found@.contains(id),
        final(c).set@ == ids(final(c).found@),
        final(c).found@.no_duplicates(),
        new ==> final(c).found@ == old(c).found@.push(id) && final(c).parents@ == old(c).parents@.push(from),
        !new ==> final(c).found@ == old(c).found@ && final(c).parents@ == old(c).parents@,
{
    if c.set.contains(id) {
        return false;
    }
    c.set.insert(id);
    c.found.push(id);
    c.parents.push(from);
    assert(c.set@ =~= ids(c.found@)) by {
        assert forall|x: u32| c.found@.contains(x) <==> (old(c).found@.contains(x) || x == id) by {
            assert(c.found@.last() == id);
            if old(c).found@.contains(x) {
                let i = choose|i: int| 0 <= i < old(c).found@.len() && old(c).found@[i] == x;
                assert(c.found@[i] == x);
            }
        }
    }
    true
}

/// The part of `Closure::of` that holds while `n` ids have been followed.
spec fn partial(c: Closure, t: Map<u32, Vec<FuncId>>, seeds: Seq<u32>) -> bool {
    &&& c.set@ == ids(c.found@)
    &&& c.found@.no_duplicates()
    &&& c.parents@.len() == c.found@.len()
    &&& forall|k: int| 0 <= k < c.found@.len() ==> found_from(t, c.found@, k, #[trigger] c.parents@[k])
    &&& forall|k: int| 0 <= k < c.found@.len() && (#[trigger] c.parents@[k]) is None ==> seeds.contains(c.found@[k])
    &&& forall|k: int| 0 <= k < c.found@.len() && (#[trigger] c.parents@[k]) is Some ==> !seeds.contains(c.found@[k])
    &&& forall|k: int|
        0 <= k < c.found@.len() ==> reach_from(t, ids(seeds)).contains(#[trigger] c.found@[k])
}

proof fn lemma_partial_push(
    a: Closure,
    b: Closure,
    t: Map<u32, Vec<FuncId>>,
    seeds: Seq<u32>,
    id: u32,
    from: Option<u32>,
)
    requires
        partial(a, t, seeds),
        b.set@ == ids(b.found@),
        b.found@.no_duplicates(),
        b.found@ == a.found@.push(id),
        b.parents@ == a.parents@.push(from),
        reach_from(t, ids(seeds)).contains(id),
        match from {
            Some(p) => a.found@.contains(p) && edge(t, p, id) && !seeds.contains(id),
            None => seeds.contains(id),
        },
    ensures
        partial(b, t, seeds),
{
    assert forall|k: int| 0 <= k < b.found@.len() implies found_from(t, b.found@, k, #[trigger] b.parents@[k]) by {
        if k < a.found@.len() {
            assert(found_from(t, a.found@, k, a.parents@[k]));
            assert(b.found@.take(k) =~= a.found@.take(k));
        } else {
            assert(b.found@.take(k) =~= a.found@);
        }
    }
    assert forall|k: int| 0 <= k < b.found@.len() && (#[trigger] b.parents@[k]) is None implies seeds.contains(
        b.found@[k],
    ) by {
        if k < a.found@.len() {
            assert(a.parents@[k] is None);
        }
    }
    assert forall|k: int| 0 <= k < b.found@.len() && (#[trigger] b.parents@[k]) is Some implies !seeds.contains(
        b.found@[k],
    ) by {
        if k < a.found@.len() {
            assert(a.parents@[k] is Some);
        }
    }
    assert forall|k: int| 0 <= k < b.found@.len() implies reach_from(t, ids(seeds)).contains(
        #[trigger] b.found@[k],
    ) by {
        if k < a.found@.len() {
            assert(reach_from(t, ids(seeds)).contains(a.found@[k]));
        }
    }
}

/// What can be reached from the seeds.
pub fn close(t: &Table<Vec<FuncId>>, seeds: &Vec<u32>) -> (c: Closure)
    ensures
        c.of(t@, seeds@),
{
    let mut c = Closure { found: Vec::new(), parents: Vec::new(), set: IdSet::new() };
    let ghost g = t@;
    let ghost r = reach_from(g, ids(seeds@));
    proof {
        law_reach_from_is_least(g, ids(seeds@), r);
    }
    assert(c.set@ =~= ids(c.found@));
    let mut i: usize = 0;
    while i < seeds.len()
        invariant
            i <= seeds@.len(),
            r == reach_from(g, ids(seeds@)),
            ids(seeds@).subset_of(r),
            partial(c, g, seeds@),
            forall|k: int| 0 <= k < i ==> c.found@.contains(#[trigger] seeds@[k]),
        decreases seeds@.len() - i,
    {
        let ghost before = c;
        let id = seeds[i];
        assert(ids(seeds@).contains(id));
        let new = find(&mut c, id, None);
        proof {
            if new {
                lemma_partial_push(before, c, g, seeds@, id, None);
            }
            assert forall|k: int| 0 <= k < i + 1 implies c.found@.contains(#[trigger] seeds@[k]) by {
                if k < i {
                    assert(before.found@.contains(seeds@[k]));
                    let j = choose|j: int| 0 <= j < before.found@.len() && before.found@[j] == seeds@[k];
                    assert(c.found@[j] == seeds@[k]);
                } else if new {
                    assert(c.found@.last() == id);
                }
            }
        }
        i = i + 1;
    }
    let mut head: usize = 0;
    proof {
        lemma_ids_fit(c.found@);
    }
    while head < c.found.len()
        invariant
            head <= c.found@.len() <= 0x1_0000_0000,
            g == t@,
            r == reach_from(g, ids(seeds@)),
            closed(g, r),
            partial(c, g, seeds@),
            forall|k: int| 0 <= k < seeds@.len() ==> c.found@.contains(#[trigger] seeds@[k]),
            forall|k: int, b: u32|
                0 <= k < head && #[trigger] edge(g, c.found@[k], b) ==> c.found@.contains(b),
        decreases 0x1_0000_0000 - c.found@.len(), c.found@.len() - head,
    {
        let a = c.found[head];
        assert(r.contains(c.found@[head as int]));
        let ghost start = c;
        if let Some(next) = t.get(a) {
            let mut j: usize = 0;
            while j < next.len()
                invariant
                    j <= next@.len(),
                    next@ == succ(g, a),
                    head < start.found@.len() <= c.found@.len() <= 0x1_0000_0000,
                    r == reach_from(g, ids(seeds@)),
                    closed(g, r),
                    r.contains(a),
                    partial(c, g, seeds@),
                    c.found@.take(start.found@.len() as int) == start.found@,
                    start.found@[head as int] == a,
                    forall|k: int| 0 <= k < seeds@.len() ==> start.found@.contains(#[trigger] seeds@[k]),
                    forall|k: int| 0 <= k < j ==> c.found@.contains((#[trigger] next@[k]).0),
                decreases next@.len() - j,
            {
                let ghost before = c;
                let b = next[j].0;
                assert(next@[j as int] == FuncId(b));
                assert(edge(g, a, b));
                assert(before.found@[head as int] == a) by {
                    assert(c.found@.take(start.found@.len() as int)[head as int] == a);
                }
                let new = find(&mut c, b, Some(a));
                proof {
                    if new {
                        if seeds@.contains(b) {
                            let k = choose|k: int| 0 <= k < seeds@.len() && seeds@[k] == b;
                            assert(start.found@.contains(seeds@[k]));
                            let m = choose|m: int| 0 <= m < start.found@.len() && start.found@[m] == b;
                            assert(before.found@.take(start.found@.len() as int)[m] == b);
                            assert(before.found@[m] == b);
                        }
                        lemma_partial_push(before, c, g, seeds@, b, Some(a));
                    }
                    lemma_ids_fit(c.found@);
                    assert(c.found@.take(start.found@.len() as int) =~= start.found@) by {
                        assert(before.found@.take(start.found@.len() as int) =~= start.found@);
                        assert forall|m: int| 0 <= m < start.found@.len() implies c.found@[m] == start.found@[m] by {
                            assert(before.found@.take(start.found@.len() as int)[m] == start.found@[m]);
                        }
                    }
                    assert forall|k: int| 0 <= k < j + 1 implies c.found@.contains((#[trigger] next@[k]).0) by {
                        if k < j {
                            assert(before.found@.contains(next@[k].0));
                            let m = choose|m: int| 0 <= m < before.found@.len() && before.found@[m] == next@[k].0;
                            assert(c.found@[m] == next@[k].0);
                        } else if new {
                            assert(c.found@.last() == b);
                        }
                    }
                }
                j = j + 1;
            }
        }
        proof {
            assert forall|m: int| 0 <= m < start.found@.len() implies c.found@[m] == start.found@[m] by {
                assert(c.found@.take(start.found@.len() as int)[m] == start.found@[m]);
            }
            assert forall|k: int| 0 <= k < seeds@.len() implies c.found@.contains(#[trigger] seeds@[k]) by {
                assert(start.found@.contains(seeds@[k]));
                let m = choose|m: int| 0 <= m < start.found@.len() && start.found@[m] == seeds@[k];
                assert(c.found@[m] == seeds@[k]);
            }
            assert forall|k: int, b: u32| 0 <= k < head + 1 && #[trigger] edge(g, c.found@[k], b) implies c.found@.contains(
                b,
            ) by {
                assert(c.found@[k] == start.found@[k]);
                if k < head {
                    assert(edge(g, start.found@[k], b));
                    assert(start.found@.contains(b));
                    let m = choose|m: int| 0 <= m < start.found@.len() && start.found@[m] == b;
                    assert(c.found@[m] == b);
                } else {
                    let i = choose|i: int| 0 <= i < succ(g, a).len() && succ(g, a)[i] == FuncId(b);
                    assert(succ(g, a)[i].0 == b);
                }
            }
        }
        head = head + 1;
    }
    proof {
        let s = ids(c.found@);
        assert forall|a: u32, b: u32| s.contains(a) && #[trigger] edge(g, a, b) implies s.contains(b) by {
            let k = choose|k: int| 0 <= k < c.found@.len() && c.found@[k] == a;
            assert(edge(g, c.found@[k], b));
        }
        assert(ids(seeds@).subset_of(s)) by {
            assert forall|x: u32| ids(seeds@).contains(x) implies s.contains(x) by {
                let k = choose|k: int| 0 <= k < seeds@.len() && seeds@[k] == x;
                assert(c.found@.contains(seeds@[k]));
            }
        }
        law_reach_from_is_least(g, ids(seeds@), s);
        assert forall|x: u32| s.contains(x) implies r.contains(x) by {
            let k = choose|k: int| 0 <= k < c.found@.len() && c.found@[k] == x;
            assert(r.contains(c.found@[k]));
        }
        assert(c.set@ =~= r);
    }
    c
}


// ---- ways that stay within a set -------------------------------------------

/// No edge into `keep` leaves the set.
pub open spec fn closed_within(t: Map<u32, Vec<FuncId>>, keep: Set<u32>, s: Set<u32>) -> bool {
    forall|a: u32, b: u32| s.contains(a) && keep.contains(b) && #[trigger] edge(t, a, b) ==> s.contains(b)
}

/// The least set that holds the seeds and that no edge into `keep` leaves.
pub open spec fn reach_within(t: Map<u32, Vec<FuncId>>, keep: Set<u32>, seeds: Set<u32>) -> Set<u32> {
    Set::new(
        |x: u32| forall|s: Set<u32>| #[trigger] closed_within(t, keep, s) && seeds.subset_of(s) ==> s.contains(x),
    )
}

/// What is reached within `keep` holds the seeds, no edge into `keep` leaves it,
/// and it is the least such set.
pub proof fn law_reach_within_is_least(t: Map<u32, Vec<FuncId>>, keep: Set<u32>, seeds: Set<u32>, s: Set<u32>)
    ensures
        seeds.subset_of(reach_within(t, keep, seeds)),
        closed_within(t, keep, reach_within(t, keep, seeds)),
        closed_within(t, keep, s) && seeds.subset_of(s) ==> reach_within(t, keep, seeds).subset_of(s),
{
    let r = reach_within(t, keep, seeds);
    assert forall|a: u32, b: u32| r.contains(a) && keep.contains(b) && #[trigger] edge(t, a, b) implies r.contains(
        b,
    ) by {
        assert forall|q: Set<u32>| #[trigger] closed_within(t, keep, q) && seeds.subset_of(q) implies q.contains(
            b,
        ) by {
            assert(q.contains(a));
        }
    }
}

/// Where every edge leads into `keep`, all ways stay within it.
pub proof fn law_reach_within_all(t: Map<u32, Vec<FuncId>>, keep: Set<u32>, seeds: Set<u32>)
    requires
        forall|a: u32, b: u32| #[trigger] edge(t, a, b) ==> keep.contains(b),
    ensures
        reach_within(t, keep, seeds) == reach_from(t, seeds),
{
    assert forall|s: Set<u32>| #[trigger] closed_within(t, keep, s) <==> closed(t, s) by {}
    assert(reach_within(t, keep, seeds) =~= reach_from(t, seeds)) by {
        assert forall|x: u32| reach_within(t, keep, seeds).contains(x) <==> reach_from(t, seeds).contains(x) by {
            if reach_within(t, keep, seeds).contains(x) {
                assert forall|s: Set<u32>| #[trigger] closed(t, s) && seeds.subset_of(s) implies s.contains(x) by {
                    assert(closed_within(t, keep, s));
                }
            }
            if reach_from(t, seeds).contains(x) {
                assert forall|s: Set<u32>| #[trigger] closed_within(t, keep, s) && seeds.subset_of(
                    s,
                ) implies s.contains(x) by {
                    assert(closed(t, s));
                }
            }
        }
    }
}

/// The edges into `keep`.
fn restrict(t: &Table<Vec<FuncId>>, keep: &IdSet) -> (r: Table<Vec<FuncId>>)
    requires
        t.wf(),
    ensures
        forall|a: u32, b: u32| #[trigger] edge(r@, a, b) <==> edge(t@, a, b) && keep@.contains(b),
{
    let mut r: Table<Vec<FuncId>> = Table::new();
    let mut i: usize = 0;
    while i < t.len()
        invariant
            i <= t.keys().len(),
            t.wf(),
            r.wf(),
            forall|a: u32, b: u32| #[trigger]
                edge(r@, a, b) <==> edge(t@, a, b) && keep@.contains(b) && t.keys().take(i as int).contains(a),
            forall|a: u32| #[trigger] r@.contains_key(a) ==> t.keys().take(i as int).contains(a),
        decreases t.keys().len() - i,
    {
        let a = t.key_at(i);
        assert(t.keys().contains(a));
        let mut list: Vec<FuncId> = Vec::new();
        let ghost all = succ(t@, a);
        if let Some(items) = t.get(a) {
            let mut j: usize = 0;
            while j < items.len()
                invariant
                    j <= items@.len(),
                    items@ == all,
                    forall|x: FuncId| #[trigger] list@.contains(x) <==> all.take(j as int).contains(x) && keep@.contains(x.0),
                decreases items@.len() - j,
            {
                let w = items[j];
                let ghost p = all.take(j as int);
                let ghost q = all.take(j + 1);
                let ghost before = list@;
                assert(q =~= p.push(w));
                assert forall|x: FuncId| q.contains(x) <==> p.contains(x) || x == w by {
                    assert(q.last() == w);
                    if p.contains(x) {
                        let n = choose|n: int| 0 <= n < p.len() && p[n] == x;
                        assert(q[n] == x);
                    }
                }
                if keep.contains(w.0) {
                    list.push(w);
                    assert forall|x: FuncId| list@.contains(x) <==> before.contains(x) || x == w by {
                        assert(list@.last() == w);
                        if before.contains(x) {
                            let n = choose|n: int| 0 <= n < before.len() && before[n] == x;
                            assert(list@[n] == x);
                        }
                    }
                }
                j = j + 1;
                assert forall|x: FuncId| #[trigger] list@.contains(x) <==> all.take(j as int).contains(x)
                    && keep@.contains(x.0) by {
                    assert(before.contains(x) <==> p.contains(x) && keep@.contains(x.0));
                }
            }
            assert(all.take(j as int) =~= all);
        }
        let ghost old_r = r@;
        let ghost kept = list@;
        let ghost p = t.keys().take(i as int);
        let ghost q = t.keys().take(i + 1);
        assert(q =~= p.push(a));
        assert forall|x: u32| q.contains(x) <==> p.contains(x) || x == a by {
            assert(q.last() == a);
            if p.contains(x) {
                let n = choose|n: int| 0 <= n < p.len() && p[n] == x;
                assert(q[n] == x);
            }
        }
        r.put(a, list);
        i = i + 1;
        assert forall|x: u32, y: u32| #[trigger]
            edge(r@, x, y) <==> edge(t@, x, y) && keep@.contains(y) && t.keys().take(i as int).contains(x) by {
            assert(edge(old_r, x, y) <==> edge(t@, x, y) && keep@.contains(y) && p.contains(x));
            if x == a {
                assert(succ(r@, a) == kept);
                assert(kept.contains(FuncId(y)) <==> all.contains(FuncId(y)) && keep@.contains(y));
            } else {
                assert(succ(r@, x) == succ(old_r, x));
            }
        }
    }
    assert(t.keys().take(i as int) =~= t.keys());
    assert forall|a: u32, b: u32| #[trigger] edge(r@, a, b) <==> edge(t@, a, b) && keep@.contains(b) by {
        if edge(t@, a, b) {
            assert(t@.contains_key(a));
        }
    }
    r
}

/// What can be reached from the seeds without leaving `keep`.
pub fn close_within(t: &Table<Vec<FuncId>>, keep: &IdSet, seeds: &Vec<u32>) -> (c: Closure)
    requires
        t.wf(),
    ensures
        c.set@ == reach_within(t@, keep@, ids(seeds@)),
        c.set@ == ids(c.found@),
        c.found@.no_duplicates(),
{
    let r = restrict(t, keep);
    let c = close(&r, seeds);
    proof {
        let k = keep@;
        assert forall|s: Set<u32>| closed(r@, s) <==> closed_within(t@, k, s) by {
            if closed(r@, s) {
                assert forall|a: u32, b: u32| s.contains(a) && k.contains(b) && #[trigger] edge(
                    t@,
                    a,
                    b,
                ) implies s.contains(b) by {
                    assert(edge(r@, a, b));
                }
            }
            if closed_within(t@, k, s) {
                assert forall|a: u32, b: u32| s.contains(a) && #[trigger] edge(r@, a, b) implies s.contains(b) by {
                    assert(edge(t@, a, b));
                }
            }
        }
        let m = ids(seeds@);
        assert(reach_from(r@, m) =~= reach_within(t@, k, m)) by {
            assert forall|x: u32| reach_from(r@, m).contains(x) <==> reach_within(t@, k, m).contains(x) by {
                if reach_from(r@, m).contains(x) {
                    assert forall|s: Set<u32>| #[trigger] closed_within(t@, k, s) && m.subset_of(s) implies s.contains(
                        x,
                    ) by {
                        assert(closed(r@, s));
                    }
                }
                if reach_within(t@, k, m).contains(x) {
                    assert forall|s: Set<u32>| #[trigger] closed(r@, s) && m.subset_of(s) implies s.contains(x) by {
                        assert(closed_within(t@, k, s));
                    }
                }
            }
        }
    }
    c
}

} // verus!
