//! Redirects: nodes that stand for other nodes.
//!
//! A pass replaces a node by mapping it to another one; chains of such maps
//! end at a node that is not redirected. Chains are finite: no node is
//! redirected, over any number of steps, to itself.

use vstd::prelude::*;

use crate::fx::IdMap;

verus! {

/// `rank` falls along every redirect.
pub open spec fn ranks(m: Map<u32, u32>, rank: spec_fn(u32) -> nat) -> bool {
    forall|k: u32| #[trigger] m.contains_key(k) ==> rank(m[k]) < rank(k)
}

/// No chain of redirects runs in a circle.
pub open spec fn acyclic(m: Map<u32, u32>) -> bool {
    exists|rank: spec_fn(u32) -> nat| ranks(m, rank)
}

/// A rank of an acyclic map.
pub open spec fn some_rank(m: Map<u32, u32>) -> spec_fn(u32) -> nat {
    choose|rank: spec_fn(u32) -> nat| ranks(m, rank)
}

/// The end of the chain that starts at `id`.
pub open spec fn resolved(m: Map<u32, u32>, id: u32) -> u32
    decreases some_rank(m)(id),
    when acyclic(m)
{
    if m.contains_key(id) {
        resolved(m, m[id])
    } else {
        id
    }
}

/// Follows redirects to the end of the chain.
pub fn resolve_in(m: &IdMap, id: u32) -> (r: u32)
    requires
        acyclic(m@),
    ensures
        r == resolved(m@, id),
        !m@.contains_key(r),
{
    let mut cur = id;
    proof {
        assert(ranks(m@, some_rank(m@)));
    }
    loop
        invariant
            ranks(m@, some_rank(m@)),
            resolved(m@, id) == resolved(m@, cur),
            acyclic(m@),
        ensures
            resolved(m@, id) == cur,
            !m@.contains_key(cur),
        decreases some_rank(m@)(cur),
    {
        match m.get(cur) {
            None => {
                break;
            },
            Some(next) => {
                assert(resolved(m@, cur) == resolved(m@, next));
                cur = next;
            },
        }
    }
    cur
}

/// The empty map has no circles.
pub proof fn lemma_empty_acyclic()
    ensures
        acyclic(Map::<u32, u32>::empty()),
{
    let rank = |k: u32| 0nat;
    assert(ranks(Map::<u32, u32>::empty(), rank));
}

/// Resolving ends at a node that is not redirected.
pub proof fn lemma_resolved_is_final(m: Map<u32, u32>, id: u32)
    requires
        acyclic(m),
    ensures
        !m.contains_key(resolved(m, id)),
    decreases some_rank(m)(id),
{
    assert(ranks(m, some_rank(m)));
    if m.contains_key(id) {
        lemma_resolved_is_final(m, m[id]);
    }
}

/// If all keys and targets are below the bound, resolving stays below it.
pub proof fn lemma_resolved_below(m: Map<u32, u32>, id: u32, n: int)
    requires
        acyclic(m),
        forall|k: u32| #[trigger] m.contains_key(k) ==> m[k] < n,
        id < n,
    ensures
        resolved(m, id) < n,
    decreases some_rank(m)(id),
{
    assert(ranks(m, some_rank(m)));
    if m.contains_key(id) {
        lemma_resolved_below(m, m[id], n);
    }
}

/// A redirect to a node that is not redirected itself closes no circle.
pub proof fn lemma_insert_acyclic(m: Map<u32, u32>, k: u32, t: u32)
    requires
        acyclic(m),
        !m.contains_key(t),
        k != t,
    ensures
        acyclic(m.insert(k, t)),
{
    let rank = some_rank(m);
    assert(ranks(m, rank));
    let next = |x: u32|
        if x == t {
            0nat
        } else {
            rank(x) + 1
        };
    let m2 = m.insert(k, t);
    assert forall|x: u32| #[trigger] m2.contains_key(x) implies next(m2[x]) < next(x) by {
        if x != k {
            assert(m.contains_key(x));
        }
    }
    assert(ranks(m2, next));
}

/// Resolving twice is resolving once.
pub proof fn law_resolve_is_idempotent(m: Map<u32, u32>, id: u32)
    requires
        acyclic(m),
    ensures
        resolved(m, resolved(m, id)) == resolved(m, id),
{
    lemma_resolved_is_final(m, id);
}

/// A node that is redirected stands for what its target stands for, any other
/// for itself; what a node stands for is never redirected.
pub proof fn law_chains_are_followed_to_their_end(m: Map<u32, u32>, id: u32)
    requires
        acyclic(m),
    ensures
        m.contains_key(id) ==> resolved(m, id) == resolved(m, m[id]),
        !m.contains_key(id) ==> resolved(m, id) == id,
        !m.contains_key(resolved(m, id)),
{
    lemma_resolved_is_final(m, id);
}

} // verus!
