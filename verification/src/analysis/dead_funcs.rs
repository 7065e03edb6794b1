//! Functions that nothing can call.

use super::call_graph::{CallGraph, ReachableReason};
use super::closure::{close, closed, edge, ids, law_reach_from_is_least, reach_from, succ};
use super::memo_plan::{MemoCandidate, MemoPlan};
use super::tables::FuncId;
use crate::fx::{IdSet, Table};
use vstd::prelude::*;

verus! {

#[derive(Debug)]
pub struct DeadFuncReport {
    /// The functions that can be left out.
    pub dead: IdSet,
    /// Why the others are kept.
    pub reachable_reasons: Table<ReachableReason>,
}

impl DeadFuncReport {
    pub fn new() -> (r: Self)
        ensures
            r.dead@ == Set::<u32>::empty(),
            r.reachable_reasons.wf(),
            forall|f: u32| !#[trigger] r.reachable_reasons@.contains_key(f),
    {
        DeadFuncReport { dead: IdSet::new(), reachable_reasons: Table::new() }
    }

    pub fn is_dead(&self, f: FuncId) -> (r: bool)
        ensures
            r == self.dead@.contains(f.0),
    {
        self.dead.contains(f.0)
    }
}

/// Whether a candidate needs the function: it is the candidate itself or one
/// that it calls.
pub open spec fn needs(cg: CallGraph, c: MemoCandidate, f: u32) -> bool {
    c.func.0 == f || edge(cg.edges@, c.func.0, f)
}

/// The functions that the first `n` candidates need.
pub open spec fn needed_upto(cg: CallGraph, cands: Seq<MemoCandidate>, n: int) -> Set<u32> {
    Set::new(|f: u32| exists|i: int| 0 <= i < n && needs(cg, #[trigger] cands[i], f))
}

/// The functions that the candidates need.
pub open spec fn memo_needs(cg: CallGraph, memo: MemoPlan) -> Set<u32> {
    needed_upto(cg, memo.candidates@, memo.candidates@.len() as int)
}

/// The functions that are kept by themselves.
pub open spec fn roots(cg: CallGraph, memo: MemoPlan) -> Set<u32> {
    cg.entry_reasons@.dom().union(memo_needs(cg, memo))
}

/// The functions that are kept: the roots and what they can reach by calls.
pub open spec fn kept(cg: CallGraph, memo: MemoPlan) -> Set<u32> {
    reach_from(cg.edges@, roots(cg, memo))
}

/// Whether the reason tells why the function is kept.
pub open spec fn reason_fits(cg: CallGraph, memo: MemoPlan, f: u32, r: ReachableReason) -> bool {
    if memo_needs(cg, memo).contains(f) {
        r == ReachableReason::MemoDependency
    } else if cg.entry_reasons@.contains_key(f) {
        r == cg.entry_reasons@[f]
    } else {
        r matches ReachableReason::CalledBy(g) && kept(cg, memo).contains(g.0) && edge(cg.edges@, g.0, f)
    }
}

/// The functions that nothing can call, and why the others are kept. Of the
/// kept functions that call another one, any may be given as its reason.
pub fn dead_func_pass(cg: &CallGraph, memo: &MemoPlan) -> (report: DeadFuncReport)
    requires
        cg.wf(),
    ensures
        report.reachable_reasons.wf(),
        forall|f: u32| #[trigger]
            report.dead@.contains(f) <==> cg.nodes@.contains(FuncId(f)) && !kept(*cg, *memo).contains(f),
        forall|f: u32| #[trigger]
            report.reachable_reasons@.contains_key(f) <==> kept(*cg, *memo).contains(f),
        forall|f: u32| #[trigger]
            report.reachable_reasons@.contains_key(f) ==> reason_fits(*cg, *memo, f, report.reachable_reasons@[f]),
{
    let mut report = DeadFuncReport::new();
    let mut seeds: Vec<u32> = Vec::new();
    let mut needed = IdSet::new();
    let mut i: usize = 0;
    while i < memo.candidates.len()
        invariant
            i <= memo.candidates@.len(),
            needed@ == ids(seeds@),
            forall|f: u32| #[trigger]
                seeds@.contains(f) <==> exists|k: int| 0 <= k < i && needs(*cg, #[trigger] memo.candidates@[k], f),
        decreases memo.candidates@.len() - i,
    {
        let c = &memo.candidates[i];
        let ghost before = seeds@;
        seeds.push(c.func.0);
        needed.insert(c.func.0);
        proof {
            lemma_push(before, c.func.0);
        }
        let ghost calls = succ(cg.edges@, c.func.0);
        if let Some(callees) = cg.edges.get(c.func.0) {
            let mut k: usize = 0;
            while k < callees.len()
                invariant
                    k <= callees@.len(),
                    callees@ == calls,
                    needed@ == ids(seeds@),
                    forall|f: u32| #[trigger]
                        seeds@.contains(f) <==> before.contains(f) || f == c.func.0 || calls.take(k as int).contains(
                            FuncId(f),
                        ),
                decreases callees@.len() - k,
            {
                let w = callees[k];
                let ghost now = seeds@;
                let ghost p = calls.take(k as int);
                let ghost q = calls.take(k + 1);
                assert(q =~= p.push(w));
                assert forall|x: FuncId| q.contains(x) <==> p.contains(x) || x == w by {
                    assert(q.last() == w);
                    if p.contains(x) {
                        let n = choose|n: int| 0 <= n < p.len() && p[n] == x;
                        assert(q[n] == x);
                    }
                }
                seeds.push(w.0);
                needed.insert(w.0);
                proof {
                    lemma_push(now, w.0);
                    assert(needed@ =~= ids(seeds@));
                    assert forall|f: u32| #[trigger]
                        seeds@.contains(f) <==> before.contains(f) || f == c.func.0 || q.contains(FuncId(f)) by {
                        assert(now.contains(f) <==> before.contains(f) || f == c.func.0 || p.contains(FuncId(f)));
                        assert(seeds@.contains(f) <==> now.contains(f) || f == w.0);
                        assert(q.contains(FuncId(f)) <==> p.contains(FuncId(f)) || FuncId(f) == w);
                    }
                }
                k = k + 1;
            }
            assert(calls.take(k as int) =~= calls);
        }
        assert(needed@ =~= ids(seeds@));
        assert forall|f: u32| #[trigger]
            seeds@.contains(f) <==> exists|k: int| 0 <= k < i + 1 && needs(*cg, #[trigger] memo.candidates@[k], f) by {
            assert(before.contains(f) <==> exists|k: int| 0 <= k < i && needs(*cg, #[trigger] memo.candidates@[k], f));
            assert(seeds@.contains(f) <==> before.contains(f) || needs(*cg, memo.candidates@[i as int], f));
        }
        i = i + 1;
    }
    assert(needed@ =~= memo_needs(*cg, *memo));
    let ghost memo_seeds = seeds@;
    let mut e: usize = 0;
    while e < cg.entry_reasons.len()
        invariant
            e <= cg.entry_reasons.keys().len(),
            forall|f: u32| #[trigger]
                seeds@.contains(f) <==> memo_seeds.contains(f) || cg.entry_reasons.keys().take(e as int).contains(f),
        decreases cg.entry_reasons.keys().len() - e,
    {
        let key = cg.entry_reasons.key_at(e);
        let ghost before = seeds@;
        let ghost p = cg.entry_reasons.keys().take(e as int);
        assert(cg.entry_reasons.keys().take(e + 1) =~= p.push(key));
        seeds.push(key);
        proof {
            lemma_push(before, key);
            lemma_push(p, key);
            assert forall|f: u32| #[trigger]
                seeds@.contains(f) <==> memo_seeds.contains(f) || cg.entry_reasons.keys().take(e + 1).contains(f) by {
                assert(before.contains(f) <==> memo_seeds.contains(f) || p.contains(f));
                assert(seeds@.contains(f) <==> before.contains(f) || f == key);
                assert(p.push(key).contains(f) <==> p.contains(f) || f == key);
            }
        }
        e = e + 1;
    }
    assert(cg.entry_reasons.keys().take(e as int) =~= cg.entry_reasons.keys());
    assert(ids(seeds@) =~= roots(*cg, *memo)) by {
        assert forall|f: u32| ids(seeds@).contains(f) <==> roots(*cg, *memo).contains(f) by {
            assert(cg.entry_reasons@.contains_key(f) <==> cg.entry_reasons.keys().contains(f));
            assert(ids(memo_seeds).contains(f) <==> memo_needs(*cg, *memo).contains(f));
        }
    }
    let reach = close(&cg.edges, &seeds);
    let ghost kept_set = kept(*cg, *memo);
    let mut k: usize = 0;
    while k < reach.found.len()
        invariant
            k <= reach.found@.len(),
            cg.wf(),
            reach.of(cg.edges@, seeds@),
            ids(seeds@) == roots(*cg, *memo),
            needed@ == memo_needs(*cg, *memo),
            kept_set == kept(*cg, *memo),
            report.dead@ == Set::<u32>::empty(),
            report.reachable_reasons.wf(),
            forall|f: u32| #[trigger]
                report.reachable_reasons@.contains_key(f) <==> reach.found@.take(k as int).contains(f),
            forall|f: u32| #[trigger]
                report.reachable_reasons@.contains_key(f) ==> reason_fits(
                    *cg,
                    *memo,
                    f,
                    report.reachable_reasons@[f],
                ),
        decreases reach.found@.len() - k,
    {
        let f = reach.found[k];
        let ghost p = reach.found@.take(k as int);
        assert(reach.found@.take(k + 1) =~= p.push(f));
        proof {
            lemma_push(p, f);
        }
        assert(found_fact(reach.found@, k as int, seeds@, reach.parents@[k as int]));
        let reason: ReachableReason = if needed.contains(f) {
            ReachableReason::MemoDependency
        } else {
            match cg.entry_reasons.get(f) {
                Some(r) => *r,
                None => match reach.parents[k] {
                    Some(g) => {
                        proof {
                            assert(super::closure::found_from(
                                cg.edges@,
                                reach.found@,
                                k as int,
                                reach.parents@[k as int],
                            ));
                            let n = choose|n: int| 0 <= n < k && reach.found@.take(k as int)[n] == g;
                            assert(reach.found@[n] == g);
                            assert(ids(reach.found@).contains(g));
                        }
                        ReachableReason::CalledBy(FuncId(g))
                    },
                    None => {
                        proof {
                            assert(seeds@.contains(f));
                            assert(ids(seeds@).contains(f));
                            assert(roots(*cg, *memo).contains(f));
                        }
                        ReachableReason::MemoDependency
                    },
                },
            }
        };
        assert(reason_fits(*cg, *memo, f, reason));
        let ghost before = report.reachable_reasons@;
        report.reachable_reasons.put(f, reason);
        k = k + 1;
    }
    assert(reach.found@.take(k as int) =~= reach.found@);
    let mut j: usize = 0;
    while j < cg.nodes.len()
        invariant
            j <= cg.nodes@.len(),
            reach.set@ == kept_set,
            forall|f: u32| #[trigger]
                report.dead@.contains(f) <==> cg.nodes@.take(j as int).contains(FuncId(f)) && !kept_set.contains(f),
            report.reachable_reasons.wf(),
            forall|f: u32| #[trigger] report.reachable_reasons@.contains_key(f) <==> reach.found@.contains(f),
            forall|f: u32| #[trigger]
                report.reachable_reasons@.contains_key(f) ==> reason_fits(
                    *cg,
                    *memo,
                    f,
                    report.reachable_reasons@[f],
                ),
        decreases cg.nodes@.len() - j,
    {
        let f = cg.nodes[j];
        let ghost p = cg.nodes@.take(j as int);
        let ghost q = cg.nodes@.take(j + 1);
        assert(q =~= p.push(f));
        assert forall|x: FuncId| q.contains(x) <==> p.contains(x) || x == f by {
            assert(q.last() == f);
            if p.contains(x) {
                let n = choose|n: int| 0 <= n < p.len() && p[n] == x;
                assert(q[n] == x);
            }
        }
        if !reach.set.contains(f.0) {
            report.dead.insert(f.0);
        }
        j = j + 1;
    }
    assert(cg.nodes@.take(j as int) =~= cg.nodes@);
    assert forall|f: u32| #[trigger]
        report.reachable_reasons@.contains_key(f) <==> kept(*cg, *memo).contains(f) by {
        assert(ids(reach.found@).contains(f) <==> reach.set@.contains(f));
    }
    report
}

spec fn found_fact(found: Seq<u32>, k: int, seeds: Seq<u32>, parent: Option<u32>) -> bool {
    parent is None ==> seeds.contains(found[k])
}

proof fn lemma_push(s: Seq<u32>, x: u32)
    ensures
        forall|y: u32| s.push(x).contains(y) <==> s.contains(y) || y == x,
{
    assert forall|y: u32| s.push(x).contains(y) <==> s.contains(y) || y == x by {
        assert(s.push(x).last() == x);
        if s.contains(y) {
            let k = choose|k: int| 0 <= k < s.len() && s[k] == y;
            assert(s.push(x)[k] == y);
        }
    }
}

/// No function that is kept calls one that is left out, and what has a reason
/// of its own is kept.
pub proof fn law_kept_functions_call_kept_ones(cg: CallGraph, memo: MemoPlan, f: u32, g: u32)
    ensures
        kept(cg, memo).contains(f) && edge(cg.edges@, f, g) ==> kept(cg, memo).contains(g),
        cg.entry_reasons@.contains_key(f) ==> kept(cg, memo).contains(f),
        memo_needs(cg, memo).contains(f) ==> kept(cg, memo).contains(f),
{
    law_reach_from_is_least(cg.edges@, roots(cg, memo), set![]);
}

/// A function that is kept without a reason of its own is called by another one
/// that is kept.
pub proof fn law_other_kept_functions_are_called(cg: CallGraph, memo: MemoPlan, f: u32) -> (g: u32)
    requires
        kept(cg, memo).contains(f),
        !cg.entry_reasons@.contains_key(f),
        forall|i: int| #![trigger memo.candidates@[i]]
            0 <= i < memo.candidates@.len() ==> memo.candidates@[i].func.0 != f && !edge(
                cg.edges@,
                memo.candidates@[i].func.0,
                f,
            ),
    ensures
        g != f,
        kept(cg, memo).contains(g),
        edge(cg.edges@, g, f),
{
    let all = kept(cg, memo);
    let s = all.remove(f);
    law_reach_from_is_least(cg.edges@, roots(cg, memo), s);
    assert(!roots(cg, memo).contains(f));
    if forall|a: u32, b: u32| s.contains(a) && #[trigger] edge(cg.edges@, a, b) ==> s.contains(b) {
        assert(closed(cg.edges@, s));
        assert(roots(cg, memo).subset_of(s));
        assert(s.contains(f));
    }
    let (a, b) = choose|a: u32, b: u32| s.contains(a) && #[trigger] edge(cg.edges@, a, b) && !s.contains(b);
    assert(all.contains(b));
    a
}

} // verus!
