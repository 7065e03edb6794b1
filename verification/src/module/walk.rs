//! The order in which imported modules are checked: each after those that it
//! imports.

use super::contents::{collect_imports, collect_pack_submodules, import_paths, imports_of, packs_of};
use super::loader::{LoadError, ModuleLoader, Stdlib};
use super::paths::{file_of, module_path_to_file};
use crate::ast::tree::Module;
use crate::fx::NameSet;
use vstd::prelude::*;

verus! {

/// A module on the way: its path, and whether its own imports have been put on
/// the stack.
#[derive(Debug)]
pub struct WalkItem {
    pub path: Vec<String>,
    pub expanded: bool,
}

/// A walk over the imports of a module.
pub struct ImportWalk {
    stack: Vec<WalkItem>,
    visited: NameSet,
    visiting: NameSet,
    order: Vec<String>,
    pending: Option<Vec<String>>,
    trace: Ghost<Trace>,
}

/// What the walk has seen.
pub ghost struct Trace {
    /// The files of the modules that are done with, in order.
    pub done: Seq<Seq<char>>,
    /// The files that were met while they were on the way.
    pub circular: Seq<Seq<char>>,
    /// The files that each module on the way or done with leads to.
    pub children: Map<Seq<char>, Seq<Seq<char>>>,
    /// The files that the walk started with.
    pub roots: Seq<Seq<char>>,
}

/// The state of a walk.
pub ghost struct State {
    pub stack: Seq<(Seq<String>, bool)>,
    pub visiting: Set<Seq<char>>,
    pub pending: Option<Seq<String>>,
    pub trace: Trace,
}

pub open spec fn key_at(s: Seq<(Seq<String>, bool)>, i: int) -> Seq<char> {
    file_of(s[i].0)
}

impl State {
    pub open spec fn visited(self, k: Seq<char>) -> bool {
        self.trace.done.contains(k)
    }

    pub open spec fn is_pending(self, k: Seq<char>) -> bool {
        self.pending matches Some(p) && file_of(p) == k
    }

    /// Whether something on the stack, from place `from` on, has the file.
    pub open spec fn ahead(self, k: Seq<char>, from: int) -> bool {
        exists|j: int| from <= j < self.stack.len() && #[trigger] key_at(self.stack, j) == k
    }

    /// Whether the file is taken care of, as seen from below place `from`: it is
    /// done with, still to come, or was met on the way.
    pub open spec fn covered(self, k: Seq<char>, from: int) -> bool {
        self.visited(k) || self.is_pending(k) || self.trace.circular.contains(k) || self.ahead(k, from)
    }

    /// Whether place `i` of the stack holds the module that put what is at place
    /// `j` there: the next one below whose imports have been put on the stack.
    pub open spec fn parent_of(self, i: int, j: int) -> bool {
        &&& 0 <= i < j <= self.stack.len()
        &&& self.stack[i].1
        &&& forall|m: int| i < m < j ==> !(#[trigger] self.stack[m]).1
    }

    /// Whether the module at place `i` leads to the file.
    pub open spec fn leads(self, i: int, k: Seq<char>) -> bool {
        self.trace.children[key_at(self.stack, i)].contains(k)
    }

    /// What holds at every point of a walk: the modules on the way are those
    /// whose imports are on the stack; each leads to what was put on the stack
    /// for it; what they lead to is taken care of above them; and what a module
    /// that is done with leads to came before it, unless it was met on the way.
    pub open spec fn sound(self) -> bool {
        &&& forall|k: Seq<char>| #[trigger]
            self.visiting.contains(k) <==> self.is_pending(k) || exists|i: int|
                0 <= i < self.stack.len() && self.stack[i].1 && #[trigger] key_at(self.stack, i) == k
        &&& forall|i: int, j: int|
            0 <= i < j < self.stack.len() && self.stack[i].1 && self.stack[j].1 ==> #[trigger] key_at(self.stack, i)
                != #[trigger] key_at(self.stack, j)
        &&& forall|i: int|
            0 <= i < self.stack.len() && self.stack[i].1 ==> !self.is_pending(#[trigger] key_at(self.stack, i))
        &&& forall|k: Seq<char>| #[trigger] self.visiting.contains(k) ==> !self.visited(k)
        &&& self.trace.done.no_duplicates()
        &&& forall|i: int|
            0 <= i < self.stack.len() && self.stack[i].1 ==> self.trace.children.contains_key(
                #[trigger] key_at(self.stack, i),
            )
        &&& forall|i: int, c: int|
            0 <= i < self.stack.len() && self.stack[i].1 && 0 <= c < self.trace.children[key_at(
                self.stack,
                i,
            )].len() ==> self.covered(#[trigger] self.trace.children[key_at(self.stack, i)][c], i + 1)
        &&& forall|p: int, c: int|
            0 <= p < self.trace.done.len() && 0 <= c < self.trace.children[self.trace.done[p]].len() ==> comes_first(
                self.trace,
                p,
                #[trigger] self.trace.children[self.trace.done[p]][c],
            )
        &&& forall|r: int| 0 <= r < self.trace.roots.len() ==> self.covered(#[trigger] self.trace.roots[r], 0)
        &&& forall|i: int, j: int| #[trigger]
            self.parent_of(i, j) && j < self.stack.len() ==> self.leads(i, key_at(self.stack, j))
        &&& forall|i: int| #[trigger]
            self.parent_of(i, self.stack.len() as int) ==> (self.pending matches Some(p) ==> self.leads(i, file_of(p)))
    }
}

/// Whether the file comes before place `p`, or was met on the way.
pub open spec fn comes_first(t: Trace, p: int, k: Seq<char>) -> bool {
    t.done.take(p).contains(k) || t.circular.contains(k)
}

/// Takes the uppermost module from the stack: one that is done with is
/// dropped; one whose imports have been dealt with is done with; one that is
/// on the way is a circle; any other one is to be loaded.
pub open spec fn step(s: State) -> State {
    let (p, expanded) = s.stack.last();
    let k = file_of(p);
    let t = s.trace;
    if s.visited(k) {
        State { stack: s.stack.drop_last(), ..s }
    } else if expanded {
        State {
            stack: s.stack.drop_last(),
            visiting: s.visiting.remove(k),
            trace: Trace { done: t.done.push(k), ..t },
            ..s
        }
    } else if s.visiting.contains(k) {
        State { stack: s.stack.drop_last(), trace: Trace { circular: t.circular.push(k), ..t }, ..s }
    } else {
        State { stack: s.stack.drop_last(), visiting: s.visiting.insert(k), pending: Some(p), ..s }
    }
}

/// Goes on until a module is to be loaded or nothing is left.
pub open spec fn settle(s: State) -> State
    decreases s.stack.len(),
{
    if s.stack.len() == 0 || s.pending is Some {
        s
    } else {
        settle(step(s))
    }
}

pub open spec fn items(paths: Seq<Seq<String>>) -> Seq<(Seq<String>, bool)> {
    paths.map_values(|p: Seq<String>| (p, false))
}

pub open spec fn keys(paths: Seq<Seq<String>>) -> Seq<Seq<char>> {
    paths.map_values(|p: Seq<String>| file_of(p))
}

/// Puts the pending module and what it leads to on the stack.
pub open spec fn expanded(s: State, children: Seq<Seq<String>>) -> State {
    let p = s.pending->0;
    State {
        stack: s.stack.push((p, true)) + items(children),
        pending: None,
        trace: Trace { children: s.trace.children.insert(file_of(p), keys(children)), ..s.trace },
        ..s
    }
}

/// A walk that starts with those modules.
pub open spec fn started(paths: Seq<Seq<String>>) -> State {
    State {
        stack: items(paths),
        visiting: Set::empty(),
        pending: None,
        trace: Trace { done: seq![], circular: seq![], children: Map::empty(), roots: keys(paths) },
    }
}

proof fn lemma_started_sound(paths: Seq<Seq<String>>)
    ensures
        started(paths).sound(),
{
    let s = started(paths);
    assert forall|r: int| 0 <= r < s.trace.roots.len() implies s.covered(#[trigger] s.trace.roots[r], 0) by {
        assert(key_at(s.stack, r) == s.trace.roots[r]);
    }
}

proof fn lemma_step_sound(s: State)
    requires
        s.sound(),
        s.pending is None,
        s.stack.len() > 0,
    ensures
        step(s).sound(),
{
    let n = step(s);
    let top = s.stack.len() - 1;
    let (p, ex) = s.stack.last();
    let k = file_of(p);
    assert(key_at(s.stack, top) == k);
    assert forall|i: int| 0 <= i < top implies #[trigger] key_at(n.stack, i) == key_at(s.stack, i) && n.stack[i].1
        == s.stack[i].1 by {}
    if s.visited(k) && ex {
        assert(s.visiting.contains(k));
    }
    // What was taken care of still is.
    assert forall|x: Seq<char>, from: int| 0 <= from && s.covered(x, from) implies #[trigger] n.covered(x, from) by {
        if s.visited(x) {
            let q = choose|q: int| 0 <= q < s.trace.done.len() && s.trace.done[q] == x;
            assert(n.trace.done[q] == x);
        } else if s.trace.circular.contains(x) {
            let q = choose|q: int| 0 <= q < s.trace.circular.len() && s.trace.circular[q] == x;
            assert(n.trace.circular[q] == x);
        } else if s.ahead(x, from) {
            let j = choose|j: int| from <= j < s.stack.len() && #[trigger] key_at(s.stack, j) == x;
            if j < top {
                assert(key_at(n.stack, j) == x);
            } else if !s.visited(k) {
                if ex {
                    assert(n.trace.done.last() == k);
                } else if s.visiting.contains(k) {
                    assert(n.trace.circular.last() == k);
                }
            }
        }
    }
    assert forall|x: Seq<char>| #[trigger] n.visiting.contains(x) <==> n.is_pending(x) || exists|i: int|
        0 <= i < n.stack.len() && n.stack[i].1 && #[trigger] key_at(n.stack, i) == x by {
        if n.visiting.contains(x) && !n.is_pending(x) {
            assert(s.visiting.contains(x));
            let i = choose|i: int| 0 <= i < s.stack.len() && s.stack[i].1 && #[trigger] key_at(s.stack, i) == x;
            if i < top {
                assert(key_at(n.stack, i) == x);
            }
        }
        if exists|i: int| 0 <= i < n.stack.len() && n.stack[i].1 && #[trigger] key_at(n.stack, i) == x {
            let i = choose|i: int| 0 <= i < n.stack.len() && n.stack[i].1 && #[trigger] key_at(n.stack, i) == x;
            assert(key_at(s.stack, i) == x);
            assert(s.visiting.contains(x));
        }
    }
    assert forall|i: int, j: int| 0 <= i < j < n.stack.len() && n.stack[i].1 && n.stack[j].1 implies #[trigger] key_at(
        n.stack,
        i,
    ) != #[trigger] key_at(n.stack, j) by {
        assert(key_at(s.stack, i) != key_at(s.stack, j));
    }
    assert forall|i: int| 0 <= i < n.stack.len() && n.stack[i].1 implies !n.is_pending(
        #[trigger] key_at(n.stack, i),
    ) by {
        assert(s.visiting.contains(key_at(s.stack, i)));
    }
    assert forall|x: Seq<char>| #[trigger] n.visiting.contains(x) implies !n.visited(x) by {
        if s.visiting.contains(x) {
            assert(!s.visited(x));
        }
        if n.visited(x) {
            let q = choose|q: int| 0 <= q < n.trace.done.len() && n.trace.done[q] == x;
            if q < s.trace.done.len() {
                assert(s.trace.done[q] == x);
            }
        }
    }
    assert(n.trace.done.no_duplicates());
    assert forall|i: int, c: int|
        0 <= i < n.stack.len() && n.stack[i].1 && 0 <= c < n.trace.children[key_at(n.stack, i)].len() implies n.covered(
        #[trigger] n.trace.children[key_at(n.stack, i)][c],
        i + 1,
    ) by {
        assert(key_at(s.stack, i) == key_at(n.stack, i));
        let x = s.trace.children[key_at(s.stack, i)][c];
        assert(s.covered(x, i + 1));
    }
    assert forall|q: int, c: int|
        0 <= q < n.trace.done.len() && 0 <= c < n.trace.children[n.trace.done[q]].len() implies comes_first(
        n.trace,
        q,
        #[trigger] n.trace.children[n.trace.done[q]][c],
    ) by {
        let x = n.trace.children[n.trace.done[q]][c];
        if q < s.trace.done.len() {
            assert(n.trace.done[q] == s.trace.done[q]);
            assert(comes_first(s.trace, q, s.trace.children[s.trace.done[q]][c]));
            assert(n.trace.done.take(q) =~= s.trace.done.take(q));
            if s.trace.circular.contains(x) {
                let m = choose|m: int| 0 <= m < s.trace.circular.len() && s.trace.circular[m] == x;
                assert(n.trace.circular[m] == x);
            }
        } else {
            assert(n.trace.done[q] == k);
            assert(s.covered(s.trace.children[key_at(s.stack, top)][c], top + 1));
            assert(!s.ahead(x, top + 1));
            assert(n.trace.done.take(q) =~= s.trace.done);
        }
    }
    assert forall|r: int| 0 <= r < n.trace.roots.len() implies n.covered(#[trigger] n.trace.roots[r], 0) by {
        assert(s.covered(s.trace.roots[r], 0));
    }
    assert forall|i: int, j: int| #[trigger] n.parent_of(i, j) implies s.parent_of(i, j) && key_at(n.stack, i)
        == key_at(s.stack, i) by {
        assert forall|m: int| i < m < j implies !(#[trigger] s.stack[m]).1 by {
            assert(!n.stack[m].1);
        }
    }
    assert forall|i: int, j: int| #[trigger] n.parent_of(i, j) && j < n.stack.len() implies n.leads(
        i,
        key_at(n.stack, j),
    ) by {
        assert(s.leads(i, key_at(s.stack, j)));
    }
    assert forall|i: int| #[trigger] n.parent_of(i, n.stack.len() as int) implies (n.pending matches Some(q) ==> n.leads(
        i,
        file_of(q),
    )) by {
        assert(s.leads(i, key_at(s.stack, top)));
    }
}

proof fn lemma_settle_sound(s: State)
    requires
        s.sound(),
    ensures
        settle(s).sound(),
        settle(s).pending is None ==> settle(s).stack.len() == 0,
    decreases s.stack.len(),
{
    if s.stack.len() == 0 || s.pending is Some {
    } else {
        lemma_step_sound(s);
        lemma_settle_sound(step(s));
    }
}

proof fn lemma_expanded_sound(s: State, children: Seq<Seq<String>>)
    requires
        s.sound(),
        s.pending is Some,
    ensures
        expanded(s, children).sound(),
{
    let n = expanded(s, children);
    let p = s.pending->0;
    let k = file_of(p);
    let at = s.stack.len() as int;
    assert(s.is_pending(k));
    assert(s.visiting.contains(k));
    assert(key_at(n.stack, at) == k && n.stack[at].1);
    assert forall|i: int| 0 <= i < at implies #[trigger] key_at(n.stack, i) == key_at(s.stack, i) && n.stack[i].1
        == s.stack[i].1 by {}
    assert forall|i: int| at < i < n.stack.len() implies !(#[trigger] n.stack[i]).1 by {}
    assert forall|x: Seq<char>, from: int| 0 <= from <= at && s.covered(x, from) implies #[trigger] n.covered(
        x,
        from,
    ) by {
        if s.is_pending(x) {
            assert(key_at(n.stack, at) == x);
        } else if s.ahead(x, from) {
            let j = choose|j: int| from <= j < s.stack.len() && #[trigger] key_at(s.stack, j) == x;
            assert(key_at(n.stack, j) == x);
        }
    }
    assert forall|x: Seq<char>| #[trigger] n.visiting.contains(x) <==> n.is_pending(x) || exists|i: int|
        0 <= i < n.stack.len() && n.stack[i].1 && #[trigger] key_at(n.stack, i) == x by {
        if s.visiting.contains(x) {
            if s.is_pending(x) {
                assert(key_at(n.stack, at) == x);
            } else {
                let i = choose|i: int| 0 <= i < s.stack.len() && s.stack[i].1 && #[trigger] key_at(s.stack, i) == x;
                assert(key_at(n.stack, i) == x);
            }
        }
        if exists|i: int| 0 <= i < n.stack.len() && n.stack[i].1 && #[trigger] key_at(n.stack, i) == x {
            let i = choose|i: int| 0 <= i < n.stack.len() && n.stack[i].1 && #[trigger] key_at(n.stack, i) == x;
            if i < at {
                assert(key_at(s.stack, i) == x);
            }
        }
    }
    assert forall|i: int, j: int| 0 <= i < j < n.stack.len() && n.stack[i].1 && n.stack[j].1 implies #[trigger] key_at(
        n.stack,
        i,
    ) != #[trigger] key_at(n.stack, j) by {
        if j < at {
            assert(key_at(s.stack, i) != key_at(s.stack, j));
        } else {
            assert(!s.is_pending(key_at(s.stack, i)));
        }
    }
    assert forall|i: int| 0 <= i < n.stack.len() && n.stack[i].1 implies n.trace.children.contains_key(
        #[trigger] key_at(n.stack, i),
    ) by {
        if i < at {
            assert(s.trace.children.contains_key(key_at(s.stack, i)));
        }
    }
    assert forall|i: int, c: int|
        0 <= i < n.stack.len() && n.stack[i].1 && 0 <= c < n.trace.children[key_at(n.stack, i)].len() implies n.covered(
        #[trigger] n.trace.children[key_at(n.stack, i)][c],
        i + 1,
    ) by {
        if i < at {
            assert(!s.is_pending(key_at(s.stack, i)));
            assert(key_at(n.stack, i) != k);
            let x = s.trace.children[key_at(s.stack, i)][c];
            assert(s.covered(x, i + 1));
        } else {
            let x = n.trace.children[k][c];
            assert(key_at(n.stack, at + 1 + c) == x);
        }
    }
    assert forall|q: int, c: int|
        0 <= q < n.trace.done.len() && 0 <= c < n.trace.children[n.trace.done[q]].len() implies comes_first(
        n.trace,
        q,
        #[trigger] n.trace.children[n.trace.done[q]][c],
    ) by {
        assert(!s.visited(k));
        assert(s.trace.done.contains(s.trace.done[q]));
        assert(comes_first(s.trace, q, s.trace.children[s.trace.done[q]][c]));
    }
    assert forall|r: int| 0 <= r < n.trace.roots.len() implies n.covered(#[trigger] n.trace.roots[r], 0) by {
        assert(s.covered(s.trace.roots[r], 0));
    }
    assert forall|i: int, j: int| #[trigger] n.parent_of(i, j) && j < n.stack.len() implies n.leads(
        i,
        key_at(n.stack, j),
    ) by {
        if i < at {
            if at < j {
                assert(!n.stack[at].1);
            }
            assert(s.parent_of(i, j)) by {
                assert forall|m: int| i < m < j implies !(#[trigger] s.stack[m]).1 by {
                    assert(!n.stack[m].1);
                }
            }
            assert(key_at(n.stack, i) == key_at(s.stack, i));
            assert(!s.is_pending(key_at(s.stack, i)));
            if j < at {
                assert(s.leads(i, key_at(s.stack, j)));
            } else {
                assert(s.leads(i, file_of(p)));
            }
        } else {
            assert(i == at);
            assert(n.trace.children[k][j - at - 1] == key_at(n.stack, j));
        }
    }
}

// ---- the walk --------------------------------------------------------------

/// The files that are not always loaded, in order.
pub open spec fn without_builtins(stdlib: Stdlib, done: Seq<Seq<char>>) -> Seq<Seq<char>>
    decreases done.len(),
{
    if done.len() == 0 {
        seq![]
    } else if stdlib.is_builtin(done.last()) {
        without_builtins(stdlib, done.drop_last())
    } else {
        without_builtins(stdlib, done.drop_last()).push(done.last())
    }
}

pub open spec fn name_seq(s: Seq<String>) -> Seq<Seq<char>> {
    s.map_values(|n: String| n@)
}

/// The paths of a module's submodules.
pub open spec fn sub_paths(path: Seq<String>, subs: Seq<String>) -> Seq<Seq<String>> {
    subs.map_values(|n: String| path.push(n))
}

/// The modules that a module leads to: its imports, and the submodules of a
/// package; none where it is not loaded.
pub open spec fn leads_to(modules: Map<Seq<char>, Module>, path: Seq<String>) -> Seq<Seq<String>> {
    let k = file_of(path);
    if modules.contains_key(k) {
        import_paths(modules[k]) + sub_paths(path, packs_of(modules[k]))
    } else {
        seq![]
    }
}

/// The errors behind the first `from` are those of circles, in order.
pub open spec fn circles_reported(errors: Seq<LoadError>, from: int, circles: Seq<Seq<char>>, start: int) -> bool {
    &&& errors.len() - from == circles.len() - start
    &&& forall|i: int|
        0 <= i < circles.len() - start ==> (#[trigger] errors[from + i] matches LoadError::CircularImport { path }
            && path@ == circles[start + i])
}

impl ImportWalk {
    pub closed spec fn state(self) -> State {
        State {
            stack: self.stack@.map_values(|i: WalkItem| (i.path@, i.expanded)),
            visiting: self.visiting@,
            pending: match self.pending {
                Some(p) => Some(p@),
                None => None,
            },
            trace: self.trace@,
        }
    }

    /// The files to check, in order.
    pub closed spec fn order(self) -> Seq<Seq<char>> {
        name_seq(self.order@)
    }

    pub closed spec fn wf(self, stdlib: Stdlib) -> bool {
        &&& self.state().sound()
        &&& forall|k: Seq<char>| #[trigger] self.visited@.contains(k) <==> self.trace@.done.contains(k)
        &&& name_seq(self.order@) == without_builtins(stdlib, self.trace@.done)
    }

    /// A walk is sound at every point, and lists what is done with but for what
    /// is always loaded.
    pub proof fn law_walk_stays_sound(self, stdlib: Stdlib)
        requires
            self.wf(stdlib),
        ensures
            self.state().sound(),
            self.order() == without_builtins(stdlib, self.state().trace.done),
    {
    }

    /// Starts a walk over the imports of a module.
    fn start(module: &Module, loader: &ModuleLoader) -> (w: Self)
        ensures
            w.wf(loader.stdlib),
            w.state() == started(import_paths(*module)),
    {
        let imports = collect_imports(module);
        let ghost paths = import_paths(*module);
        let mut stack: Vec<WalkItem> = Vec::new();
        let ghost item = |i: WalkItem| (i.path@, i.expanded);
        let mut i: usize = 0;
        while i < imports.len()
            invariant
                i <= imports@.len() == paths.len(),
                imports@ == imports_of(*module),
                paths == import_paths(*module),
                item == (|i: WalkItem| (i.path@, i.expanded)),
                stack@.map_values(item) =~= items(paths.take(i as int)),
            decreases imports@.len() - i,
        {
            let path = copy_path(imports[i].path);
            assert(paths[i as int] == imports@[i as int].path@);
            let ghost before = stack@;
            stack.push(WalkItem { path, expanded: false });
            assert(stack@.map_values(item) =~= before.map_values(item).push((path@, false)));
            assert(items(paths.take(i + 1)) =~= items(paths.take(i as int)).push((path@, false)));
            i = i + 1;
        }
        assert(paths.take(i as int) =~= paths);
        let w = ImportWalk {
            stack,
            visited: NameSet::new(),
            visiting: NameSet::new(),
            order: Vec::new(),
            pending: None,
            trace: Ghost(started(import_paths(*module)).trace),
        };
        proof {
            lemma_started_sound(paths);
            assert(w.state().stack =~= items(paths));
            assert(name_seq(w.order@) =~= seq![]);
        }
        w
    }

    /// Goes on to the next module that is to be loaded, and gives its path;
    /// nothing where the walk is over. Circles are reported to the loader.
    pub fn next(&mut self, loader: &mut ModuleLoader) -> (r: Option<&Vec<String>>)
        requires
            old(self).wf(old(loader).stdlib),
            old(self).state().pending is None,
        ensures
            final(self).wf(old(loader).stdlib),
            final(self).state() == settle(old(self).state()),
            match r {
                Some(p) => final(self).state().pending == Some(p@),
                None => final(self).state().pending is None && final(self).state().stack.len() == 0,
            },
            circles_reported(
                final(loader).load_errors@,
                old(loader).load_errors@.len() as int,
                final(self).state().trace.circular,
                old(self).state().trace.circular.len() as int,
            ),
            old(loader).load_errors@.is_prefix_of(final(loader).load_errors@),
            *final(loader) == (ModuleLoader { load_errors: final(loader).load_errors, ..*old(loader) }),
    {
        let ghost first = self.state();
        let ghost base = loader.load_errors@;
        let ghost stdlib = loader.stdlib;
        let ghost start = first.trace.circular.len() as int;
        proof {
            lemma_settle_sound(first);
        }
        while self.pending.is_none() && self.stack.len() > 0
            invariant
                self.wf(stdlib),
                stdlib == old(loader).stdlib,
                settle(first) == settle(self.state()),
                start == first.trace.circular.len() <= self.state().trace.circular.len(),
                circles_reported(loader.load_errors@, base.len() as int, self.state().trace.circular, start),
                base == old(loader).load_errors@,
                base.is_prefix_of(loader.load_errors@),
                *loader == (ModuleLoader { load_errors: loader.load_errors, ..*old(loader) }),
            decreases self.stack@.len(),
        {
            let ghost s = self.state();
            let ghost done = self.trace@.done;
            proof {
                lemma_step_sound(s);
            }
            if let Some(item) = self.stack.pop() {
                let key = module_path_to_file(&item.path);
                assert(s.stack.last() == (item.path@, item.expanded));
                assert(self.state().stack =~= s.stack.drop_last());
                if self.visited.contains(key.as_str()) {
                    assert(self.state() == step(s));
                } else if item.expanded {
                    self.visiting.remove(key.as_str());
                    self.visited.insert(key.clone());
                    proof {
                        self.trace@.done = done.push(key@);
                        assert(done.push(key@).drop_last() =~= done);
                    }
                    let ghost before = self.order@;
                    if !loader.stdlib.holds_builtin(&key) {
                        self.order.push(key);
                        assert(name_seq(self.order@) =~= name_seq(before).push(key@));
                    }
                    assert(self.state() == step(s));
                    assert forall|k: Seq<char>| #[trigger] self.visited@.contains(k)
                        <==> self.trace@.done.contains(k) by {
                        assert(done.push(key@).last() == key@);
                        if done.contains(k) {
                            let q = choose|q: int| 0 <= q < done.len() && done[q] == k;
                            assert(done.push(key@)[q] == k);
                        }
                    }
                } else if self.visiting.contains(key.as_str()) {
                    let ghost circles = self.trace@.circular;
                    let ghost errors = loader.load_errors@;
                    proof {
                        self.trace@.circular = circles.push(key@);
                    }
                    let ghost path = key@;
                    loader.load_errors.push(LoadError::CircularImport { path: key });
                    assert(self.state() == step(s));
                    assert forall|i: int| 0 <= i < circles.push(path).len() - start implies (
                    #[trigger] loader.load_errors@[base.len() + i] matches LoadError::CircularImport { path: p }
                        && p@ == circles.push(path)[start + i]) by {
                        if i < circles.len() - start {
                            assert(loader.load_errors@[base.len() + i] == errors[base.len() + i]);
                        }
                    }
                } else {
                    self.visiting.insert(key);
                    self.pending = Some(item.path);
                    assert(self.state() == step(s));
                }
            }
        }
        self.pending.as_ref()
    }

    /// Puts the module that was to be loaded on its way, with what it leads to.
    pub fn expand(&mut self, loader: &ModuleLoader)
        requires
            loader.wf(),
            old(self).wf(loader.stdlib),
            old(self).state().pending is Some,
        ensures
            final(self).wf(loader.stdlib),
            final(self).state() == expanded(
                old(self).state(),
                leads_to(loader.loaded().modules, old(self).state().pending->0),
            ),
    {
        let ghost s = self.state();
        let ghost modules = loader.loaded().modules;
        let ghost item = |i: WalkItem| (i.path@, i.expanded);
        let mut taken: Option<Vec<String>> = None;
        core::mem::swap(&mut self.pending, &mut taken);
        if let Some(path) = taken {
            let key = module_path_to_file(&path);
            let own = copy_path(&path);
            self.stack.push(WalkItem { path: own, expanded: true });
            let ghost base = self.stack@.map_values(item);
            assert(base =~= s.stack.push((path@, true)));
            let ghost kids = leads_to(modules, path@);
            if let Some(module) = loader.get_module_by_key(&key) {
                let imports = collect_imports(module);
                let subs = collect_pack_submodules(module);
                let ghost paths = import_paths(*module);
                let mut i: usize = 0;
                while i < imports.len()
                    invariant
                        i <= imports@.len() == paths.len(),
                        imports@ == imports_of(*module),
                        paths == import_paths(*module),
                        item == (|i: WalkItem| (i.path@, i.expanded)),
                        self.stack@.map_values(item) =~= base + items(paths.take(i as int)),
                        self.visited == old(self).visited,
                        self.visiting == old(self).visiting,
                        self.order == old(self).order,
                        self.trace == old(self).trace,
                        self.pending is None,
                    decreases imports@.len() - i,
                {
                    let p = copy_path(imports[i].path);
                    assert(paths[i as int] == imports@[i as int].path@);
                    let ghost before = self.stack@;
                    self.stack.push(WalkItem { path: p, expanded: false });
                    assert(self.stack@.map_values(item) =~= before.map_values(item).push((p@, false)));
                    assert(items(paths.take(i + 1)) =~= items(paths.take(i as int)).push((p@, false)));
                    i = i + 1;
                }
                assert(paths.take(i as int) =~= paths);
                let ghost so_far = base + items(paths);
                let mut j: usize = 0;
                while j < subs.len()
                    invariant
                        j <= subs@.len(),
                        item == (|i: WalkItem| (i.path@, i.expanded)),
                        self.stack@.map_values(item) =~= so_far + items(sub_paths(path@, subs@.take(j as int))),
                        self.visited == old(self).visited,
                        self.visiting == old(self).visiting,
                        self.order == old(self).order,
                        self.trace == old(self).trace,
                        self.pending is None,
                    decreases subs@.len() - j,
                {
                    let mut p = copy_path(&path);
                    p.push(subs[j].clone());
                    let ghost before = self.stack@;
                    let ghost q = sub_paths(path@, subs@.take(j as int));
                    self.stack.push(WalkItem { path: p, expanded: false });
                    assert(self.stack@.map_values(item) =~= before.map_values(item).push((p@, false)));
                    assert(sub_paths(path@, subs@.take(j + 1)) =~= q.push(p@));
                    assert(items(q.push(p@)) =~= items(q).push((p@, false)));
                    j = j + 1;
                }
                assert(subs@.take(j as int) =~= subs@);
            }
            proof {
                assert(self.stack@.map_values(item) =~= base + items(kids));
                let e = expanded(s, kids);
                lemma_expanded_sound(s, kids);
                self.trace@ = e.trace;
                assert(self.state().stack =~= e.stack);
                assert(self.state() == e);
            }
        }
    }

    /// The files to check, in order.
    pub fn finish(self) -> (order: Vec<String>)
        ensures
            name_seq(order@) == self.order(),
    {
        self.order
    }
}

impl ModuleLoader {
    /// Starts a walk over all modules that a module imports, directly or not.
    pub fn load_transitive_imports(&self, module: &Module) -> (w: ImportWalk)
        ensures
            w.wf(self.stdlib),
            w.state() == started(import_paths(*module)),
    {
        ImportWalk::start(module, self)
    }
}

fn copy_path(v: &Vec<String>) -> (r: Vec<String>)
    ensures
        r@ == v@,
{
    let mut r: Vec<String> = Vec::new();
    let mut i: usize = 0;
    while i < v.len()
        invariant
            i <= v@.len(),
            r@ =~= v@.take(i as int),
        decreases v@.len() - i,
    {
        r.push(v[i].clone());
        i = i + 1;
    }
    assert(v@.take(i as int) =~= v@);
    r
}

/// When a walk is over, all that it started with and all that a module leads to
/// has been done with, before the module itself; only what closes a circle of
/// imports need not come first. No module is done with twice.
pub proof fn law_imports_come_first(s: State, p: int, c: int, r: int)
    requires
        s.sound(),
        s.stack.len() == 0,
        s.pending is None,
    ensures
        s.trace.done.no_duplicates(),
        0 <= p < s.trace.done.len() && 0 <= c < s.trace.children[s.trace.done[p]].len() ==> comes_first(
            s.trace,
            p,
            s.trace.children[s.trace.done[p]][c],
        ),
        0 <= r < s.trace.roots.len() ==> s.visited(s.trace.roots[r]) || s.trace.circular.contains(s.trace.roots[r]),
{
    if 0 <= p < s.trace.done.len() && 0 <= c < s.trace.children[s.trace.done[p]].len() {
        assert(comes_first(s.trace, p, s.trace.children[s.trace.done[p]][c]));
    }
    if 0 <= r < s.trace.roots.len() {
        assert(s.covered(s.trace.roots[r], 0));
    }
}

/// Each file of the way is on the way and leads to the next.
pub open spec fn is_way(s: State, way: Seq<Seq<char>>) -> bool {
    &&& way.len() > 1
    &&& forall|x: int|
        0 <= x < way.len() - 1 ==> s.visiting.contains(#[trigger] way[x]) && s.trace.children[way[x]].contains(
            way[x + 1],
        )
}

proof fn lemma_way(s: State, i: int, m: int, j: int) -> (way: Seq<Seq<char>>)
    requires
        s.sound(),
        0 <= i <= m < j < s.stack.len(),
        s.stack[i].1,
        forall|x: int| m < x < j ==> !(#[trigger] s.stack[x]).1,
    ensures
        is_way(s, way),
        way[0] == key_at(s.stack, i),
        way.last() == key_at(s.stack, j),
    decreases j, m,
{
    if !s.stack[m].1 {
        lemma_way(s, i, m - 1, j)
    } else {
        let a = key_at(s.stack, m);
        let b = key_at(s.stack, j);
        assert(s.parent_of(m, j));
        assert(s.leads(m, b));
        assert(s.visiting.contains(a));
        if m == i {
            seq![a, b]
        } else {
            let first = lemma_way(s, i, m - 1, m);
            let way = first.push(b);
            assert forall|x: int| 0 <= x < way.len() - 1 implies s.visiting.contains(#[trigger] way[x])
                && s.trace.children[way[x]].contains(way[x + 1]) by {
                if x < first.len() - 1 {
                    assert(way[x] == first[x] && way[x + 1] == first[x + 1]);
                }
            }
            way
        }
    }
}

/// A circle is reported only for a module that is on the way and that leads,
/// over modules on the way, back to itself.
pub proof fn law_circles_are_on_the_way(s: State)
    requires
        s.sound(),
        s.pending is None,
        s.stack.len() > 0,
        step(s).trace.circular.len() > s.trace.circular.len(),
    ensures
        step(s).trace.circular == s.trace.circular.push(file_of(s.stack.last().0)),
        exists|way: Seq<Seq<char>>| #[trigger]
            is_way(s, way) && way[0] == file_of(s.stack.last().0) && way.last() == file_of(s.stack.last().0),
{
    let k = file_of(s.stack.last().0);
    let top = s.stack.len() - 1;
    assert(s.visiting.contains(k));
    let i = choose|i: int| 0 <= i < s.stack.len() && s.stack[i].1 && #[trigger] key_at(s.stack, i) == k;
    assert(i < top);
    assert(key_at(s.stack, top) == k);
    let way = lemma_way(s, i, top - 1, top);
    assert(is_way(s, way));
}

/// The order to check in keeps what comes first: what was done with before
/// place `p`, and is not always loaded, is listed in front of the rest.
pub proof fn law_order_keeps_what_comes_first(stdlib: Stdlib, done: Seq<Seq<char>>, p: int, k: Seq<char>)
    requires
        0 <= p <= done.len(),
        done.take(p).contains(k),
        !stdlib.is_builtin(k),
    ensures
        without_builtins(stdlib, done.take(p)).contains(k),
        without_builtins(stdlib, done.take(p)).is_prefix_of(without_builtins(stdlib, done)),
    decreases done.len(),
{
    if p < done.len() {
        assert(done.drop_last().take(p) =~= done.take(p));
        law_order_keeps_what_comes_first(stdlib, done.drop_last(), p, k);
    } else {
        assert(done.take(p) =~= done);
        let rest = done.drop_last();
        let i = choose|i: int| 0 <= i < done.len() && done[i] == k;
        if i < rest.len() {
            assert(rest.take(rest.len() as int) =~= rest);
            assert(rest[i] == k);
            law_order_keeps_what_comes_first(stdlib, rest, rest.len() as int, k);
            let w = without_builtins(stdlib, rest);
            let j = choose|j: int| 0 <= j < w.len() && w[j] == k;
            assert(without_builtins(stdlib, done)[j] == k);
        } else {
            assert(without_builtins(stdlib, done).last() == k);
        }
    }
}

/// A loaded module leads to all its imports and all its public submodules; one
/// that is not loaded leads nowhere.
pub proof fn law_modules_lead_to_their_imports(modules: Map<Seq<char>, Module>, path: Seq<String>, i: int)
    ensures
        ({
            let k = file_of(path);
            &&& modules.contains_key(k) && 0 <= i < import_paths(modules[k]).len() ==> leads_to(modules, path).contains(
                import_paths(modules[k])[i],
            )
            &&& modules.contains_key(k) && 0 <= i < packs_of(modules[k]).len() ==> leads_to(modules, path).contains(
                path.push(packs_of(modules[k])[i]),
            )
            &&& modules.contains_key(k) ==> leads_to(modules, path).len() == import_paths(modules[k]).len() + packs_of(
                modules[k],
            ).len()
            &&& !modules.contains_key(k) ==> leads_to(modules, path).len() == 0
        }),
{
    let k = file_of(path);
    if modules.contains_key(k) {
        let a = import_paths(modules[k]);
        let b = sub_paths(path, packs_of(modules[k]));
        if 0 <= i < a.len() {
            assert((a + b)[i] == a[i]);
        }
        if 0 <= i < b.len() {
            assert((a + b)[a.len() + i] == path.push(packs_of(modules[k])[i]));
        }
    }
}

} // verus!
