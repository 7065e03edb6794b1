//! Which modules import which, in both directions.

use crate::ast::sema::{has_name, holds_name};
use crate::fx::NameSet;
use crate::name_table::NameTable;
use vstd::prelude::*;

verus! {

/// The names of a list.
pub open spec fn listed(s: Seq<String>) -> Set<Seq<char>> {
    Set::new(|n: Seq<char>| has_name(s, n))
}

/// The imports of modules.
#[derive(Debug)]
pub struct DepGraph {
    /// What each module imports.
    pub forward: NameTable<Vec<String>>,
    /// By whom each module is imported.
    pub reverse: NameTable<Vec<String>>,
}

/// The list of a name; empty where it has none.
pub open spec fn list_of(t: NameTable<Vec<String>>, n: Seq<char>) -> Set<Seq<char>> {
    if t.has(n) {
        listed(t.at(n)@)
    } else {
        Set::empty()
    }
}

impl DepGraph {
    /// Whether `a` imports `b`.
    pub open spec fn imports(self, a: Seq<char>, b: Seq<char>) -> bool {
        list_of(self.forward, a).contains(b)
    }

    /// Both directions tell the same.
    pub open spec fn wf(self) -> bool {
        &&& self.forward.wf()
        &&& self.reverse.wf()
        &&& forall|a: Seq<char>, b: Seq<char>| #[trigger]
            list_of(self.reverse, b).contains(a) <==> self.imports(a, b)
    }

    pub fn new() -> (g: Self)
        ensures
            g.wf(),
            forall|n: Seq<char>| !#[trigger] g.forward.has(n),
            forall|n: Seq<char>| !#[trigger] g.reverse.has(n),
            g.forward.count() == 0,
            g.reverse.count() == 0,
    {
        DepGraph { forward: NameTable::new(), reverse: NameTable::new() }
    }

    /// What a module imports.
    pub fn get_forward_deps(&self, key: &String) -> (r: Option<&Vec<String>>)
        requires
            self.wf(),
        ensures
            match r {
                Some(v) => self.forward.has(key@) && listed(v@) == list_of(self.forward, key@),
                None => !self.forward.has(key@),
            },
    {
        self.forward.get(key)
    }

    /// By whom a module is imported.
    pub fn get_reverse_deps(&self, key: &String) -> (r: Option<&Vec<String>>)
        requires
            self.wf(),
        ensures
            match r {
                Some(v) => self.reverse.has(key@) && listed(v@) == list_of(self.reverse, key@),
                None => !self.reverse.has(key@),
            },
    {
        self.reverse.get(key)
    }
}

fn copy_without(v: &Vec<String>, drop: &String) -> (r: Vec<String>)
    ensures
        listed(r@) == listed(v@).remove(drop@),
{
    let mut r: Vec<String> = Vec::new();
    let mut i: usize = 0;
    while i < v.len()
        invariant
            i <= v@.len(),
            forall|n: Seq<char>| #[trigger] has_name(r@, n) <==> n != drop@ && has_name(v@.take(i as int), n),
        decreases v@.len() - i,
    {
        let ghost before = r@;
        let ghost x = v@[i as int]@;
        proof {
            lemma_has_name_push(v@.take(i as int), v@[i as int]);
            assert(v@.take(i + 1) =~= v@.take(i as int).push(v@[i as int]));
        }
        if v[i] != *drop {
            r.push(v[i].clone());
            proof {
                lemma_has_name_push(before, v@[i as int]);
            }
        }
        i = i + 1;
    }
    assert(v@.take(i as int) =~= v@);
    assert(listed(r@) =~= listed(v@).remove(drop@));
    r
}

fn copy_with(v: &Vec<String>, add: &String) -> (r: Vec<String>)
    ensures
        listed(r@) == listed(v@).insert(add@),
{
    let mut r = copy_without(v, add);
    let ghost before = r@;
    r.push(add.clone());
    proof {
        lemma_has_name_push(before, *add);
        assert(listed(r@) =~= listed(v@).insert(add@)) by {
            assert forall|n: Seq<char>| listed(r@).contains(n) <==> listed(v@).insert(add@).contains(n) by {
                assert(listed(before).contains(n) <==> listed(v@).remove(add@).contains(n));
            }
        }
    }
    r
}

pub proof fn lemma_has_name_push(s: Seq<String>, x: String)
    ensures
        forall|n: Seq<char>| #[trigger] has_name(s.push(x), n) <==> has_name(s, n) || n == x@,
{
    assert forall|n: Seq<char>| #[trigger] has_name(s.push(x), n) <==> has_name(s, n) || n == x@ by {
        assert(s.push(x)[s.len() as int]@ == x@);
        if has_name(s, n) {
            let i = choose|i: int| 0 <= i < s.len() && (#[trigger] s[i])@ == n;
            assert(s.push(x)[i]@ == n);
        }
        if has_name(s.push(x), n) && n != x@ {
            let i = choose|i: int| 0 <= i < s.push(x).len() && (#[trigger] s.push(x)[i])@ == n;
            assert(s[i]@ == n);
        }
    }
}

impl DepGraph {
    /// Replaces what a module imports. The graph needs room for the names.
    pub fn set_deps(&mut self, key: &String, deps: Vec<String>)
        requires
            old(self).wf(),
            old(self).forward.count() < u32::MAX,
            old(self).reverse.count() + deps@.len() <= u32::MAX,
        ensures
            final(self).wf(),
            forall|a: Seq<char>, b: Seq<char>| #[trigger]
                final(self).imports(a, b) <==> (if a == key@ {
                    has_name(deps@, b)
                } else {
                    old(self).imports(a, b)
                }),
            forall|n: Seq<char>| #[trigger] final(self).forward.has(n) <==> old(self).forward.has(n) || n == key@,
            forall|n: Seq<char>| #[trigger]
                final(self).reverse.has(n) <==> old(self).reverse.has(n) || has_name(deps@, n),
            final(self).forward.count() <= old(self).forward.count() + 1,
            final(self).reverse.count() <= old(self).reverse.count() + deps@.len(),
    {
        let ghost first = *self;
        let ghost was = list_of(self.forward, key@);
        let mut gone: Vec<String> = Vec::new();
        if let Some(prev) = self.forward.get(key) {
            let mut i: usize = 0;
            while i < prev.len()
                invariant
                    i <= prev@.len(),
                    forall|n: Seq<char>| #[trigger]
                        has_name(gone@, n) <==> has_name(prev@.take(i as int), n) && !has_name(deps@, n),
                decreases prev@.len() - i,
            {
                let ghost before = gone@;
                proof {
                    lemma_has_name_push(prev@.take(i as int), prev@[i as int]);
                    assert(prev@.take(i + 1) =~= prev@.take(i as int).push(prev@[i as int]));
                }
                if !holds_name(&deps, &prev[i]) {
                    gone.push(prev[i].clone());
                    proof {
                        lemma_has_name_push(before, prev@[i as int]);
                    }
                }
                i = i + 1;
            }
            assert(prev@.take(i as int) =~= prev@);
        }
        assert forall|n: Seq<char>| #[trigger] has_name(gone@, n) <==> was.contains(n) && !has_name(deps@, n) by {}
        let mut k: usize = 0;
        while k < gone.len()
            invariant
                k <= gone@.len(),
                first.wf(),
                self.forward == first.forward,
                self.reverse.wf(),
                self.reverse.count() == first.reverse.count(),
                was == list_of(first.forward, key@),
                forall|n: Seq<char>| #[trigger] self.reverse.has(n) <==> first.reverse.has(n),
                forall|a: Seq<char>, b: Seq<char>| #[trigger]
                    list_of(self.reverse, b).contains(a) <==> list_of(first.reverse, b).contains(a) && !(a == key@
                        && has_name(gone@.take(k as int), b)),
            decreases gone@.len() - k,
        {
            let ghost rev = self.reverse;
            let name = &gone[k];
            proof {
                lemma_has_name_push(gone@.take(k as int), gone@[k as int]);
                assert(gone@.take(k + 1) =~= gone@.take(k as int).push(gone@[k as int]));
            }
            if let Some(list) = self.reverse.get(name) {
                let next = copy_without(list, key);
                self.reverse.put(name, next);
            }
            k = k + 1;
            assert forall|a: Seq<char>, b: Seq<char>| #[trigger]
                list_of(self.reverse, b).contains(a) <==> list_of(first.reverse, b).contains(a) && !(a == key@
                    && has_name(gone@.take(k as int), b)) by {
                assert(list_of(rev, b).contains(a) <==> list_of(first.reverse, b).contains(a) && !(a == key@
                    && has_name(gone@.take(k - 1), b)));
            }
        }
        assert(gone@.take(k as int) =~= gone@);
        let ghost mid = *self;
        let mut m: usize = 0;
        while m < deps.len()
            invariant
                m <= deps@.len(),
                mid.reverse.wf(),
                mid.forward == first.forward,
                self.forward == first.forward,
                self.reverse.wf(),
                mid.reverse.count() + deps@.len() <= u32::MAX,
                self.reverse.count() <= mid.reverse.count() + m,
                forall|n: Seq<char>| #[trigger]
                    self.reverse.has(n) <==> mid.reverse.has(n) || has_name(deps@.take(m as int), n),
                forall|a: Seq<char>, b: Seq<char>| #[trigger]
                    list_of(self.reverse, b).contains(a) <==> list_of(mid.reverse, b).contains(a) || (a == key@
                        && has_name(deps@.take(m as int), b)),
            decreases deps@.len() - m,
        {
            let ghost rev = self.reverse;
            let name = &deps[m];
            proof {
                lemma_has_name_push(deps@.take(m as int), deps@[m as int]);
                assert(deps@.take(m + 1) =~= deps@.take(m as int).push(deps@[m as int]));
            }
            let next = match self.reverse.get(name) {
                Some(list) => copy_with(list, key),
                None => {
                    let none: Vec<String> = Vec::new();
                    assert(listed(none@) =~= Set::empty());
                    copy_with(&none, key)
                },
            };
            assert(listed(next@) == list_of(rev, name@).insert(key@));
            self.reverse.put(name, next);
            m = m + 1;
            assert forall|a: Seq<char>, b: Seq<char>| #[trigger]
                list_of(self.reverse, b).contains(a) <==> list_of(mid.reverse, b).contains(a) || (a == key@
                    && has_name(deps@.take(m as int), b)) by {
                assert(list_of(rev, b).contains(a) <==> list_of(mid.reverse, b).contains(a) || (a == key@ && has_name(
                    deps@.take(m - 1),
                    b,
                )));
            }
        }
        assert(deps@.take(m as int) =~= deps@);
        let ghost new_deps = deps@;
        let ghost before = *self;
        self.forward.put(key, deps);
        proof {
            assert forall|a: Seq<char>, b: Seq<char>| #[trigger] self.imports(a, b) <==> (if a == key@ {
                has_name(new_deps, b)
            } else {
                first.imports(a, b)
            }) by {}
            assert forall|a: Seq<char>, b: Seq<char>| #[trigger] list_of(self.reverse, b).contains(a)
                <==> self.imports(a, b) by {
                assert(list_of(first.reverse, b).contains(a) <==> first.imports(a, b));
                assert(list_of(mid.reverse, b).contains(a) <==> list_of(first.reverse, b).contains(a) && !(a == key@
                    && has_name(gone@, b)));
                assert(list_of(before.reverse, b).contains(a) <==> list_of(mid.reverse, b).contains(a) || (a == key@
                    && has_name(new_deps, b)));
                assert(has_name(gone@, b) <==> was.contains(b) && !has_name(new_deps, b));
            }
        }
    }
}

// ---- what has to be checked again ------------------------------------------

/// No importer of a module of the set is outside it.
pub open spec fn holds_importers(g: DepGraph, s: Set<Seq<char>>) -> bool {
    forall|a: Seq<char>, b: Seq<char>| s.contains(b) && #[trigger] g.imports(a, b) ==> s.contains(a)
}

/// The least set of modules that holds the changed one and all importers of its
/// modules.
pub open spec fn dirty(g: DepGraph, changed: Seq<char>) -> Set<Seq<char>> {
    Set::new(
        |x: Seq<char>|
            forall|s: Set<Seq<char>>| #[trigger] holds_importers(g, s) && s.contains(changed) ==> s.contains(x),
    )
}

/// Number of names of the list outside the set.
spec fn left(s: Seq<Seq<char>>, done: Set<Seq<char>>) -> nat
    decreases s.len(),
{
    if s.len() == 0 {
        0
    } else {
        left(s.drop_last(), done) + if done.contains(s.last()) {
            0nat
        } else {
            1nat
        }
    }
}

proof fn lemma_left(s: Seq<Seq<char>>, a: Set<Seq<char>>, x: Seq<char>)
    ensures
        left(s, a.insert(x)) <= left(s, a),
        s.contains(x) && !a.contains(x) ==> left(s, a.insert(x)) < left(s, a),
    decreases s.len(),
{
    if s.len() > 0 {
        lemma_left(s.drop_last(), a, x);
        if s.contains(x) && s.last() != x {
            let i = choose|i: int| 0 <= i < s.len() && s[i] == x;
            assert(s.drop_last()[i] == x);
        }
    }
}

impl DepGraph {
    /// The modules to check again after one has changed: it and all that import
    /// it, directly or not.
    pub fn dirty_closure(&self, changed: &String) -> (set: NameSet)
        requires
            self.wf(),
        ensures
            set@ == dirty(*self, changed@),
    {
        let mut set = NameSet::new();
        set.insert(changed.clone());
        let mut frontier: Vec<String> = vec![changed.clone()];
        assert(frontier@[0]@ == changed@);
        let ghost all = dirty(*self, changed@);
        let ghost names = self.forward.names();
        proof {
            self.forward.lemma_names();
            assert(all.contains(changed@));
        }
        loop
            invariant
                self.wf(),
                all == dirty(*self, changed@),
                names == self.forward.names(),
                forall|n: Seq<char>| #[trigger] self.forward.has(n) <==> names.contains(n),
                set@.contains(changed@),
                forall|n: Seq<char>| #[trigger] set@.contains(n) ==> all.contains(n),
                forall|n: Seq<char>| #[trigger] has_name(frontier@, n) ==> set@.contains(n),
                forall|a: Seq<char>, b: Seq<char>|
                    set@.contains(b) && !has_name(frontier@, b) && #[trigger] self.imports(a, b) ==> set@.contains(a),
            ensures
                frontier@.len() == 0,
            decreases left(names, set@) + frontier@.len(),
        {
            let ghost f0 = frontier@;
            let m = match frontier.pop() {
                Some(m) => m,
                None => {
                    break;
                },
            };
            assert(f0[f0.len() - 1] == m);
            assert(has_name(f0, m@));
            let ghost rest = frontier@;
            proof {
                assert(f0 =~= rest.push(m));
                lemma_has_name_push(rest, m);
                assert forall|n: Seq<char>| #[trigger] has_name(rest, n) implies set@.contains(n) by {
                    assert(has_name(rest.push(m), n));
                }
            }
            let ghost s0 = set@;
            let ghost budget = left(names, set@) + frontier@.len();
            if let Some(importers) = self.reverse.get(&m) {
                let mut i: usize = 0;
                while i < importers.len()
                    invariant
                        i <= importers@.len(),
                        self.wf(),
                        all == dirty(*self, changed@),
                        names == self.forward.names(),
                        forall|n: Seq<char>| #[trigger] self.forward.has(n) <==> names.contains(n),
                        listed(importers@) == list_of(self.reverse, m@),
                        all.contains(m@),
                        s0.subset_of(set@),
                        forall|n: Seq<char>| #[trigger] set@.contains(n) ==> all.contains(n),
                        forall|n: Seq<char>| #[trigger] has_name(frontier@, n) ==> set@.contains(n),
                        forall|n: Seq<char>| #[trigger]
                            set@.contains(n) && !s0.contains(n) ==> has_name(frontier@, n),
                        forall|n: Seq<char>| #[trigger] has_name(rest, n) ==> has_name(frontier@, n),
                        forall|k: int| 0 <= k < i ==> set@.contains((#[trigger] importers@[k])@),
                        left(names, set@) + frontier@.len() <= budget,
                    decreases importers@.len() - i,
                {
                    let imp = &importers[i];
                    let ghost before = set@;
                    let ghost fb = frontier@;
                    assert(has_name(importers@, importers@[i as int]@));
                    assert(list_of(self.reverse, m@).contains(imp@));
                    assert(self.imports(imp@, m@));
                    assert(all.contains(imp@)) by {
                        assert forall|s: Set<Seq<char>>| #[trigger] holds_importers(*self, s) && s.contains(
                            changed@,
                        ) implies s.contains(imp@) by {
                            assert(s.contains(m@));
                        }
                    }
                    assert(names.contains(imp@)) by {
                        assert(self.forward.has(imp@));
                    }
                    proof {
                        lemma_left(names, before, imp@);
                    }
                    if set.insert(imp.clone()) {
                        frontier.push(imp.clone());
                        proof {
                            lemma_has_name_push(fb, *imp);
                            assert forall|n: Seq<char>| #[trigger] has_name(fb, n) implies has_name(frontier@, n) by {
                                assert(has_name(fb.push(*imp), n));
                            }
                        }
                    } else {
                        assert(set@ =~= before);
                    }
                    i = i + 1;
                }
            }
            proof {
                assert forall|a: Seq<char>, b: Seq<char>| set@.contains(b) && !has_name(frontier@, b)
                    && #[trigger] self.imports(a, b) implies set@.contains(a) by {
                    if b == m@ {
                        assert(list_of(self.reverse, b).contains(a));
                    } else {
                        assert(s0.contains(b));
                        assert(!has_name(f0, b));
                    }
                }
            }
        }
        proof {
            assert forall|n: Seq<char>| !has_name(frontier@, n) by {}
            assert(holds_importers(*self, set@));
            assert(set@ =~= all);
        }
        set
    }
}

/// What has to be checked again after a change: the changed module, whoever
/// imports something to be checked again, and nothing more.
pub proof fn law_dirty_is_least(g: DepGraph, changed: Seq<char>, s: Set<Seq<char>>)
    ensures
        dirty(g, changed).contains(changed),
        holds_importers(g, dirty(g, changed)),
        holds_importers(g, s) && s.contains(changed) ==> dirty(g, changed).subset_of(s),
{
    let d = dirty(g, changed);
    assert forall|a: Seq<char>, b: Seq<char>| d.contains(b) && #[trigger] g.imports(a, b) implies d.contains(a) by {
        assert forall|q: Set<Seq<char>>| #[trigger] holds_importers(g, q) && q.contains(changed) implies q.contains(
            a,
        ) by {
            assert(q.contains(b));
        }
    }
}

} // verus!
