//! Groups of functions that call each other in a circle.

use super::closure::{
    close, converse, edge, ids, law_converse_turns_ways_round, law_reach_from_is_least, law_reach_from_is_transitive,
    reach_from,
};
use super::tables::FuncId;
use crate::fx::{IdSet, Table};
use vstd::prelude::*;

verus! {

/// Each of the two reaches the other.
pub open spec fn together(t: Map<u32, Vec<FuncId>>, a: u32, b: u32) -> bool {
    reach_from(t, set![a]).contains(b) && reach_from(t, set![b]).contains(a)
}

/// To be together is an equivalence.
pub proof fn law_together(t: Map<u32, Vec<FuncId>>, a: u32, b: u32, c: u32)
    ensures
        together(t, a, a),
        together(t, a, b) ==> together(t, b, a),
        together(t, a, b) && together(t, b, c) ==> together(t, a, c),
{
    law_reach_from_is_least(t, set![a], set![]);
    assert(set![a].contains(a));
    if together(t, a, b) && together(t, b, c) {
        law_reach_from_is_transitive(t, a, b, c);
        law_reach_from_is_transitive(t, c, b, a);
    }
}

/// The list holds exactly what is together with each of its items.
pub open spec fn is_group(t: Map<u32, Vec<FuncId>>, g: Seq<FuncId>) -> bool {
    &&& g.len() > 0
    &&& g.no_duplicates()
    &&& forall|a: FuncId, x: FuncId| g.contains(a) ==> (#[trigger] g.contains(x) <==> #[trigger] together(t, a.0, x.0))
}

pub open spec fn in_a_group(gs: Seq<Vec<FuncId>>, f: FuncId) -> bool {
    exists|i: int| 0 <= i < gs.len() && (#[trigger] gs[i])@.contains(f)
}

/// Each list is a group, and no function is in two.
pub open spec fn apart(t: Map<u32, Vec<FuncId>>, gs: Seq<Vec<FuncId>>) -> bool {
    &&& forall|i: int| 0 <= i < gs.len() ==> is_group(t, (#[trigger] gs[i])@)
    &&& forall|i: int, j: int, f: FuncId|
        0 <= i < gs.len() && 0 <= j < gs.len() && i != j && #[trigger] gs[i]@.contains(f)
            ==> !#[trigger] gs[j]@.contains(f)
}

/// A group comes behind the others that its functions reach.
pub open spec fn callees_first(t: Map<u32, Vec<FuncId>>, gs: Seq<Vec<FuncId>>) -> bool {
    forall|i: int, j: int, a: FuncId, b: FuncId|
        0 <= i < gs.len() && 0 <= j < gs.len() && i != j && #[trigger] gs[i]@.contains(a) && #[trigger] gs[j]@.contains(
            b,
        ) && reach_from(t, set![a.0]).contains(b.0) ==> j < i
}

/// All groups of functions that can be reached from `nodes`, each listed once,
/// those that a group calls before it.
pub open spec fn components(t: Map<u32, Vec<FuncId>>, nodes: Seq<u32>, gs: Seq<Vec<FuncId>>) -> bool {
    &&& apart(t, gs)
    &&& callees_first(t, gs)
    &&& forall|a: u32| reach_from(t, ids(nodes)).contains(a) <==> #[trigger] in_a_group(gs, FuncId(a))
}

/// The groups of more than one function among all groups, in order.
pub open spec fn groups(t: Map<u32, Vec<FuncId>>, nodes: Seq<u32>, gs: Seq<Vec<FuncId>>) -> bool {
    &&& apart(t, gs)
    &&& callees_first(t, gs)
    &&& forall|i: int| 0 <= i < gs.len() ==> (#[trigger] gs[i])@.len() > 1
    &&& forall|a: u32, b: u32|
        reach_from(t, ids(nodes)).contains(a) && a != b && #[trigger] together(t, a, b) ==> in_a_group(gs, FuncId(a))
    &&& forall|i: int, f: FuncId|
        0 <= i < gs.len() && #[trigger] gs[i]@.contains(f) ==> reach_from(t, ids(nodes)).contains(f.0)
}

/// A call from one group into another leads to one that comes before.
pub proof fn law_calls_lead_to_earlier_groups(
    t: Map<u32, Vec<FuncId>>,
    gs: Seq<Vec<FuncId>>,
    i: int,
    j: int,
    a: FuncId,
    b: FuncId,
)
    requires
        callees_first(t, gs),
        0 <= i < gs.len(),
        0 <= j < gs.len(),
        i != j,
        gs[i]@.contains(a),
        gs[j]@.contains(b),
        edge(t, a.0, b.0),
    ensures
        j < i,
{
    law_reach_from_is_least(t, set![a.0], set![]);
    assert(set![a.0].contains(a.0));
    assert(reach_from(t, set![a.0]).contains(b.0));
}

/// Where all calls lead to functions of the list, the groups hold exactly those
/// functions.
pub proof fn law_groups_cover_the_functions(t: Map<u32, Vec<FuncId>>, nodes: Seq<u32>, gs: Seq<Vec<FuncId>>, a: u32)
    requires
        components(t, nodes, gs),
        forall|x: u32, y: u32| nodes.contains(x) && #[trigger] edge(t, x, y) ==> nodes.contains(y),
    ensures
        in_a_group(gs, FuncId(a)) <==> nodes.contains(a),
{
    law_reach_from_is_least(t, ids(nodes), ids(nodes));
    assert(closed_under(t, ids(nodes)));
    assert(reach_from(t, ids(nodes)).contains(a) <==> in_a_group(gs, FuncId(a)));
}

/// How many functions can be reached from `v`.
spec fn extent(t: Map<u32, Vec<FuncId>>, v: u32) -> nat {
    reach_from(t, set![v]).len()
}

proof fn lemma_extent(t: Map<u32, Vec<FuncId>>, v: u32, found: Seq<u32>)
    requires
        found.no_duplicates(),
        ids(found) == reach_from(t, set![v]),
    ensures
        reach_from(t, set![v]).finite(),
        extent(t, v) == found.len(),
{
    assert(found.to_set() =~= ids(found));
    found.unique_seq_to_set();
    vstd::seq_lib::seq_to_set_is_finite(found);
}

/// What is reached, but not together with where it is reached from, reaches
/// fewer functions.
proof fn lemma_callee_reaches_less(t: Map<u32, Vec<FuncId>>, a: u32, b: u32)
    requires
        reach_from(t, set![a]).finite(),
        reach_from(t, set![a]).contains(b),
        !together(t, a, b),
    ensures
        extent(t, b) < extent(t, a),
{
    let all = reach_from(t, set![a]);
    let less = reach_from(t, set![b]);
    law_reach_from_is_least(t, set![a], set![]);
    assert(set![a].contains(a));
    assert forall|x: u32| less.contains(x) implies all.contains(x) by {
        law_reach_from_is_transitive(t, a, b, x);
    }
    less.lemma_subset_not_in_lt(all, a);
}

/// What is together reaches the same.
proof fn lemma_together_reach_alike(t: Map<u32, Vec<FuncId>>, a: u32, b: u32)
    requires
        together(t, a, b),
    ensures
        reach_from(t, set![a]) == reach_from(t, set![b]),
{
    assert forall|x: u32| reach_from(t, set![a]).contains(x) <==> reach_from(t, set![b]).contains(x) by {
        if reach_from(t, set![a]).contains(x) {
            law_reach_from_is_transitive(t, b, a, x);
        }
        if reach_from(t, set![b]).contains(x) {
            law_reach_from_is_transitive(t, a, b, x);
        }
    }
    assert(reach_from(t, set![a]) =~= reach_from(t, set![b]));
}

spec fn rising(t: Map<u32, Vec<FuncId>>, s: Seq<u32>) -> bool {
    forall|i: int, j: int| 0 <= i <= j < s.len() ==> extent(t, #[trigger] s[i]) <= extent(t, #[trigger] s[j])
}

/// The same ids, those that reach fewer functions first.
fn order_by_extent(t: &Table<Vec<FuncId>>, found: &Vec<u32>) -> (order: Vec<u32>)
    ensures
        rising(t@, order@),
        forall|x: u32| #[trigger] order@.contains(x) <==> found@.contains(x),
        forall|x: u32| found@.contains(x) ==> (#[trigger] reach_from(t@, set![x])).finite(),
{
    let mut counts: Vec<usize> = Vec::new();
    let mut most: usize = 0;
    let mut i: usize = 0;
    while i < found.len()
        invariant
            i <= found@.len(),
            counts@.len() == i,
            forall|k: int| 0 <= k < i ==> #[trigger] counts@[k] == extent(t@, found@[k]),
            forall|k: int| 0 <= k < i ==> #[trigger] counts@[k] <= most,
            forall|k: int| 0 <= k < i ==> (reach_from(t@, set![#[trigger] found@[k]])).finite(),
        decreases found@.len() - i,
    {
        let v = found[i];
        let seed: Vec<u32> = vec![v];
        assert(ids(seed@) =~= set![v]) by {
            assert(seed@[0] == v);
        }
        let c = close(t, &seed);
        let n: usize = c.found.len();
        proof {
            lemma_extent(t@, v, c.found@);
        }
        counts.push(n);
        if n > most {
            most = n;
        }
        i = i + 1;
    }
    let mut order: Vec<u32> = Vec::new();
    let mut n: usize = 0;
    let mut more: bool = true;
    while more
        invariant
            counts@.len() == found@.len(),
            forall|k: int| 0 <= k < found@.len() ==> #[trigger] counts@[k] == extent(t@, found@[k]),
            forall|k: int| 0 <= k < found@.len() ==> #[trigger] counts@[k] <= most,
            rising(t@, order@),
            n <= most,
            more ==> forall|k: int| 0 <= k < order@.len() ==> extent(t@, #[trigger] order@[k]) < n,
            forall|k: int| 0 <= k < order@.len() ==> found@.contains(#[trigger] order@[k]),
            forall|k: int|
                0 <= k < found@.len() && (#[trigger] counts@[k] < n || !more) ==> order@.contains(found@[k]),
        decreases most - n, if more { 1int } else { 0int },
    {
        let mut k: usize = 0;
        let ghost before = order@;
        while k < found.len()
            invariant
                k <= found@.len(),
                counts@.len() == found@.len(),
                forall|j: int| 0 <= j < found@.len() ==> #[trigger] counts@[j] == extent(t@, found@[j]),
                rising(t@, order@),
                before.len() <= order@.len(),
                forall|j: int| 0 <= j < before.len() ==> #[trigger] order@[j] == before[j],
                forall|j: int| 0 <= j < order@.len() ==> extent(t@, #[trigger] order@[j]) <= n,
                forall|j: int| 0 <= j < order@.len() ==> found@.contains(#[trigger] order@[j]),
                forall|j: int| 0 <= j < k && #[trigger] counts@[j] == n ==> order@.contains(found@[j]),
            decreases found@.len() - k,
        {
            let ghost list = order@;
            if counts[k] == n {
                order.push(found[k]);
                assert(found@.contains(found@[k as int]));
                assert(order@[list.len() as int] == found@[k as int]);
                assert forall|j: int| 0 <= j < k && #[trigger] counts@[j] == n implies order@.contains(found@[j]) by {
                    let q = choose|q: int| 0 <= q < list.len() && list[q] == found@[j];
                    assert(order@[q] == found@[j]);
                }
            }
            k = k + 1;
        }
        assert forall|j: int| 0 <= j < found@.len() && #[trigger] counts@[j] <= n implies order@.contains(found@[j]) by {
            if counts@[j] < n {
                let q = choose|q: int| 0 <= q < before.len() && before[q] == found@[j];
                assert(order@[q] == found@[j]);
            }
        }
        if n < most {
            n = n + 1;
        } else {
            more = false;
        }
    }
    assert forall|x: u32| #[trigger] order@.contains(x) <==> found@.contains(x) by {
        if found@.contains(x) {
            let k = choose|k: int| 0 <= k < found@.len() && found@[k] == x;
            assert(counts@[k] <= most);
        }
    }
    order
}

/// What is together with `v`.
fn group_of(t: &Table<Vec<FuncId>>, r: &Table<Vec<FuncId>>, v: u32) -> (g: Vec<FuncId>)
    requires
        converse(t@, r@),
    ensures
        g@.no_duplicates(),
        forall|x: FuncId| #[trigger] g@.contains(x) <==> together(t@, v, x.0),
{
    let seed: Vec<u32> = vec![v];
    assert(ids(seed@) =~= set![v]) by {
        assert(seed@[0] == v);
    }
    let forth = close(t, &seed);
    let back = close(r, &seed);
    let mut g: Vec<FuncId> = Vec::new();
    let mut i: usize = 0;
    while i < forth.found.len()
        invariant
            i <= forth.found@.len(),
            forth.found@.no_duplicates(),
            g@.no_duplicates(),
            forall|x: FuncId| #[trigger] g@.contains(x) <==> (forth.found@.take(i as int).contains(x.0)
                && back.set@.contains(x.0)),
        decreases forth.found@.len() - i,
    {
        let w = forth.found[i];
        let ghost before = g@;
        let ghost old_prefix = forth.found@.take(i as int);
        let ghost prefix = forth.found@.take(i + 1);
        assert(prefix =~= old_prefix.push(w));
        assert forall|x: u32| prefix.contains(x) <==> (old_prefix.contains(x) || x == w) by {
            assert(prefix.last() == w);
            if old_prefix.contains(x) {
                let k = choose|k: int| 0 <= k < old_prefix.len() && old_prefix[k] == x;
                assert(prefix[k] == x);
            }
        }
        assert(!old_prefix.contains(w));
        if back.set.contains(w) {
            g.push(FuncId(w));
            assert(!before.contains(FuncId(w)));
            assert forall|x: FuncId| #[trigger] g@.contains(x) <==> (before.contains(x) || x == FuncId(w)) by {
                assert(g@.last() == FuncId(w));
                if before.contains(x) {
                    let k = choose|k: int| 0 <= k < before.len() && before[k] == x;
                    assert(g@[k] == x);
                }
            }
        }
        i = i + 1;
        assert forall|x: FuncId| #[trigger] g@.contains(x) <==> (forth.found@.take(i as int).contains(x.0)
            && back.set@.contains(x.0)) by {
            assert(before.contains(x) <==> (old_prefix.contains(x.0) && back.set@.contains(x.0)));
        }
    }
    assert(forth.found@.take(i as int) =~= forth.found@);
    assert forall|x: FuncId| #[trigger] g@.contains(x) <==> together(t@, v, x.0) by {
        law_converse_turns_ways_round(t@, r@, v, x.0);
        assert(forth.set@.contains(x.0) <==> forth.found@.contains(x.0));
    }
    g
}

/// The groups of functions that can be reached from `nodes`: two functions are
/// in one group where each reaches the other.
pub fn find_groups(t: &Table<Vec<FuncId>>, r: &Table<Vec<FuncId>>, nodes: &Vec<u32>) -> (gs: Vec<Vec<FuncId>>)
    requires
        converse(t@, r@),
    ensures
        components(t@, nodes@, gs@),
{
    let all = close(t, nodes);
    let order = order_by_extent(t, &all.found);
    let ghost reach = reach_from(t@, ids(nodes@));
    proof {
        law_reach_from_is_least(t@, ids(nodes@), reach);
        assert forall|k: int| 0 <= k < order@.len() implies reach.contains(#[trigger] order@[k]) by {
            assert(order@.contains(order@[k]));
            assert(all.found@.contains(order@[k]));
            assert(all.set@.contains(order@[k]));
        }
    }
    let mut done = IdSet::new();
    let mut gs: Vec<Vec<FuncId>> = Vec::new();
    let mut i: usize = 0;
    while i < order.len()
        invariant
            i <= order@.len(),
            converse(t@, r@),
            rising(t@, order@),
            reach == reach_from(t@, ids(nodes@)),
            closed_under(t@, reach),
            forall|k: int| 0 <= k < order@.len() ==> reach.contains(#[trigger] order@[k]),
            forall|k: int| 0 <= k < i ==> done@.contains(#[trigger] order@[k]),
            forall|a: u32, b: u32| done@.contains(a) && #[trigger] together(t@, a, b) ==> done@.contains(b),
            forall|a: u32| #[trigger] done@.contains(a) ==> in_a_group(gs@, FuncId(a)),
            apart(t@, gs@),
            forall|k: int, f: FuncId|
                0 <= k < gs@.len() && #[trigger] gs@[k]@.contains(f) ==> done@.contains(f.0) && reach.contains(f.0),
            forall|k: int, j: int, a: FuncId, b: FuncId|
                0 <= k < j < gs@.len() && #[trigger] gs@[k]@.contains(a) && #[trigger] gs@[j]@.contains(b) ==> extent(
                    t@,
                    a.0,
                ) <= extent(t@, b.0),
            forall|k: int, a: FuncId, q: int|
                0 <= k < gs@.len() && #[trigger] gs@[k]@.contains(a) && i <= q < order@.len() ==> extent(t@, a.0)
                    <= extent(t@, #[trigger] order@[q]),
        decreases order@.len() - i,
    {
        let v = order[i];
        assert(reach.contains(order@[i as int]));
        if !done.contains(v) {
            let g = group_of(t, r, v);
            let ghost gv = g@;
            let ghost done0 = done@;
            let ghost gs0 = gs@;
            proof {
                law_together(t@, v, v, v);
                assert(gv.contains(FuncId(v)));
                assert forall|x: FuncId| gv.contains(x) implies !done0.contains(x.0) && reach.contains(x.0) && extent(
                    t@,
                    x.0,
                ) == extent(t@, v) by {
                    law_together(t@, v, x.0, v);
                    if done0.contains(x.0) {
                        assert(together(t@, x.0, v));
                    }
                    assert(together(t@, v, x.0));
                    lemma_reach_keeps(t@, reach, v, x.0);
                    lemma_together_reach_alike(t@, v, x.0);
                }
            }
            let mut j: usize = 0;
            while j < g.len()
                invariant
                    j <= g@.len(),
                    gv == g@,
                    forall|x: u32| #[trigger] done@.contains(x) <==> (done0.contains(x) || gv.take(j as int).contains(FuncId(x))),
                decreases g@.len() - j,
            {
                let w = g[j];
                let ghost a = gv.take(j as int);
                let ghost b = gv.take(j + 1);
                assert(b =~= a.push(w));
                assert forall|x: FuncId| b.contains(x) <==> (a.contains(x) || x == w) by {
                    assert(b.last() == w);
                    if a.contains(x) {
                        let k = choose|k: int| 0 <= k < a.len() && a[k] == x;
                        assert(b[k] == x);
                    }
                }
                done.insert(w.0);
                j = j + 1;
            }
            assert(gv.take(j as int) =~= gv);
            gs.push(g);
            proof {
                let n = gs0.len() as int;
                assert(gs@[n]@ == gv);
                assert forall|a: u32, b: u32| done@.contains(a) && #[trigger] together(t@, a, b) implies done@.contains(
                    b,
                ) by {
                    if gv.contains(FuncId(a)) {
                        law_together(t@, v, a, b);
                        assert(together(t@, v, b));
                        assert(gv.contains(FuncId(b)));
                    } else {
                        assert(done0.contains(a));
                    }
                }
                assert forall|a: FuncId, x: FuncId| gv.contains(a) implies (#[trigger] gv.contains(x)
                    <==> #[trigger] together(t@, a.0, x.0)) by {
                    law_together(t@, v, a.0, x.0);
                    law_together(t@, a.0, v, x.0);
                }
                assert forall|a: u32| #[trigger] done@.contains(a) implies in_a_group(gs@, FuncId(a)) by {
                    if gv.contains(FuncId(a)) {
                        assert(gs@[n]@.contains(FuncId(a)));
                    } else {
                        assert(done0.contains(a));
                        assert(in_a_group(gs0, FuncId(a)));
                        let k = choose|k: int| 0 <= k < gs0.len() && (#[trigger] gs0[k])@.contains(FuncId(a));
                        assert(gs@[k] == gs0[k]);
                    }
                }
                assert forall|k: int| 0 <= k < gs@.len() implies is_group(t@, (#[trigger] gs@[k])@) by {
                    if k < gs0.len() {
                        assert(gs@[k] == gs0[k]);
                        assert(is_group(t@, gs0[k]@));
                    }
                }
                assert forall|k: int, f: FuncId| 0 <= k < gs@.len() && #[trigger] gs@[k]@.contains(f) implies done@.contains(
                    f.0,
                ) && reach.contains(f.0) by {
                    if k < gs0.len() {
                        assert(gs0[k]@.contains(f));
                        assert(done0.contains(f.0));
                    }
                }
                assert forall|k: int, j: int, f: FuncId|
                    0 <= k < gs@.len() && 0 <= j < gs@.len() && k != j && #[trigger] gs@[k]@.contains(
                        f,
                    ) implies !#[trigger] gs@[j]@.contains(f) by {
                    if k < gs0.len() {
                        assert(gs0[k]@.contains(f));
                    }
                    if j < gs0.len() && gs@[j]@.contains(f) {
                        assert(gs0[j]@.contains(f));
                    }
                }
                assert forall|k: int, j: int, a: FuncId, b: FuncId|
                    0 <= k < j < gs@.len() && #[trigger] gs@[k]@.contains(a) && #[trigger] gs@[j]@.contains(
                        b,
                    ) implies extent(t@, a.0) <= extent(t@, b.0) by {
                    assert(gs0[k]@.contains(a));
                    if j < gs0.len() {
                        assert(gs0[j]@.contains(b));
                    } else {
                        assert(extent(t@, a.0) <= extent(t@, order@[i as int]));
                    }
                }
                assert forall|k: int, a: FuncId, q: int|
                    0 <= k < gs@.len() && #[trigger] gs@[k]@.contains(a) && i <= q < order@.len() implies extent(
                    t@,
                    a.0,
                ) <= extent(t@, #[trigger] order@[q]) by {
                    if k < gs0.len() {
                        assert(gs0[k]@.contains(a));
                    } else {
                        assert(extent(t@, order@[i as int]) <= extent(t@, order@[q]));
                    }
                }
                assert(done@.contains(v));
            }
        }
        i = i + 1;
    }
    proof {
        assert forall|a: u32| reach.contains(a) <==> #[trigger] in_a_group(gs@, FuncId(a)) by {
            if reach.contains(a) {
                assert(all.set@.contains(a));
                assert(all.found@.contains(a));
                assert(order@.contains(a));
                let k = choose|k: int| 0 <= k < order@.len() && order@[k] == a;
                assert(done@.contains(order@[k]));
            }
        }
        assert forall|i: int, j: int, a: FuncId, b: FuncId|
            0 <= i < gs@.len() && 0 <= j < gs@.len() && i != j && #[trigger] gs@[i]@.contains(a)
                && #[trigger] gs@[j]@.contains(b) && reach_from(t@, set![a.0]).contains(b.0) implies j < i by {
            assert(reach.contains(a.0));
            assert(all.set@.contains(a.0));
            assert(all.found@.contains(a.0));
            assert(reach_from(t@, set![a.0]).finite());
            if together(t@, a.0, b.0) {
                assert(is_group(t@, gs@[i]@));
                assert(gs@[i]@.contains(b));
            } else {
                lemma_callee_reaches_less(t@, a.0, b.0);
            }
        }
    }
    gs
}

/// The groups of more than one function: those that call each other in a
/// circle.
pub(crate) fn keep_circles(
    all: &Vec<Vec<FuncId>>,
    Ghost(t): Ghost<Map<u32, Vec<FuncId>>>,
    Ghost(nodes): Ghost<Seq<u32>>,
) -> (gs: Vec<Vec<FuncId>>)
    requires
        components(t, nodes, all@),
    ensures
        groups(t, nodes, gs@),
{
    let mut gs: Vec<Vec<FuncId>> = Vec::new();
    let ghost mut from: Seq<int> = seq![];
    let mut i: usize = 0;
    while i < all.len()
        invariant
            i <= all@.len(),
            from.len() == gs@.len(),
            forall|k: int|
                0 <= k < gs@.len() ==> 0 <= #[trigger] from[k] < i && gs@[k]@ == all@[from[k]]@ && gs@[k]@.len() > 1,
            forall|k: int, j: int| 0 <= k < j < gs@.len() ==> #[trigger] from[k] < #[trigger] from[j],
            forall|k: int| 0 <= k < i && (#[trigger] all@[k])@.len() > 1 ==> from.contains(k),
        decreases all@.len() - i,
    {
        if all[i].len() > 1 {
            let mut g: Vec<FuncId> = Vec::new();
            let mut k: usize = 0;
            while k < all[i].len()
                invariant
                    i < all@.len(),
                    k <= all@[i as int]@.len(),
                    g@ =~= all@[i as int]@.take(k as int),
                decreases all@[i as int]@.len() - k,
            {
                g.push(all[i][k]);
                k = k + 1;
            }
            assert(g@ =~= all@[i as int]@);
            gs.push(g);
            proof {
                let before = from;
                from = from.push(i as int);
                assert forall|k: int| 0 <= k < i + 1 && (#[trigger] all@[k])@.len() > 1 implies from.contains(k) by {
                    if k < i {
                        let q = choose|q: int| 0 <= q < before.len() && before[q] == k;
                        assert(from[q] == k);
                    } else {
                        assert(from[before.len() as int] == k);
                    }
                }
            }
        }
        i = i + 1;
    }
    proof {
        assert forall|k: int| 0 <= k < gs@.len() implies is_group(t, (#[trigger] gs@[k])@) by {
            assert(is_group(t, all@[from[k]]@));
        }
        assert forall|k: int| 0 <= k < gs@.len() implies (#[trigger] gs@[k])@.len() > 1 by {
            assert(0 <= from[k]);
        }
        assert forall|k: int, j: int, f: FuncId|
            0 <= k < gs@.len() && 0 <= j < gs@.len() && k != j && #[trigger] gs@[k]@.contains(f) implies !#[trigger] gs@[j]@.contains(
            f,
        ) by {
            assert(all@[from[k]]@.contains(f));
            assert(from[k] != from[j]);
            assert(!all@[from[j]]@.contains(f));
        }
        assert forall|k: int, j: int, a: FuncId, b: FuncId|
            0 <= k < gs@.len() && 0 <= j < gs@.len() && k != j && #[trigger] gs@[k]@.contains(a)
                && #[trigger] gs@[j]@.contains(b) && reach_from(t, set![a.0]).contains(b.0) implies j < k by {
            assert(all@[from[k]]@.contains(a));
            assert(all@[from[j]]@.contains(b));
            assert(from[k] != from[j]);
            assert(from[j] < from[k]);
        }
        assert forall|a: u32, b: u32|
            reach_from(t, ids(nodes)).contains(a) && a != b && #[trigger] together(t, a, b) implies in_a_group(
            gs@,
            FuncId(a),
        ) by {
            assert(in_a_group(all@, FuncId(a)));
            let n = choose|n: int| 0 <= n < all@.len() && (#[trigger] all@[n])@.contains(FuncId(a));
            assert(is_group(t, all@[n]@));
            assert(together(t, FuncId(a).0, FuncId(b).0));
            assert(all@[n]@.contains(FuncId(b)));
            lemma_two_items(all@[n]@, FuncId(a), FuncId(b));
            let k = choose|k: int| 0 <= k < from.len() && from[k] == n;
            assert(gs@[k]@.contains(FuncId(a)));
        }
        assert forall|k: int, f: FuncId| 0 <= k < gs@.len() && #[trigger] gs@[k]@.contains(f) implies reach_from(
            t,
            ids(nodes),
        ).contains(f.0) by {
            assert(all@[from[k]]@.contains(f));
            assert(in_a_group(all@, FuncId(f.0)));
        }
    }
    gs
}

spec fn closed_under(t: Map<u32, Vec<FuncId>>, s: Set<u32>) -> bool {
    super::closure::closed(t, s)
}

proof fn lemma_reach_keeps(t: Map<u32, Vec<FuncId>>, s: Set<u32>, v: u32, x: u32)
    requires
        closed_under(t, s),
        s.contains(v),
        reach_from(t, set![v]).contains(x),
    ensures
        s.contains(x),
{
    law_reach_from_is_least(t, set![v], s);
    assert(set![v].subset_of(s));
}

proof fn lemma_two_items(g: Seq<FuncId>, a: FuncId, b: FuncId)
    requires
        g.contains(a),
        g.contains(b),
        a != b,
    ensures
        g.len() > 1,
{
    let i = choose|i: int| 0 <= i < g.len() && g[i] == a;
    let j = choose|j: int| 0 <= j < g.len() && g[j] == b;
    assert(i != j);
}

} // verus!
