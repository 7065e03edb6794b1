//! The call graph of a module: who calls whom, which functions call
//! themselves, and why a function is kept although nobody calls it.

use super::closure::{converse, edge, succ};
use super::functions::{
    all_locs, func_ids, func_meta, func_metas, func_names, functions_fit, list_functions, loc_map, meta_of, metas_of,
    FuncKind, FuncMetaRef, MethodLoc,
};
use super::scc::{find_groups, groups, in_a_group, keep_circles};
use super::tables::FuncId;
use crate::ast::sema::{method_target, resolve_method_mangled, SemaResult};
use crate::ast::tree::{Attribute, Decl, Expr, ExprKind, Module, Visibility};
use crate::ast::walk::{ident_of, reach, reached, Piece, Walk};
use crate::fx::{no_entries, no_names, IdSet, NameMap, Table};
use crate::names::{full_name, has_dot, mangle, member_part, owner_part, split_member};
use vstd::prelude::*;

verus! {

/// Why a function is kept.
#[derive(Debug, Clone, Copy, PartialEq, Eq, Structural)]
pub enum ReachableReason {
    /// The program starts there.
    Entry,
    /// Its body is given in C.
    ExternC,
    /// It carries the attribute of functions that are called from outside.
    ExternAttr,
    TraitMethod,
    TypeMethod,
    Public,
    /// A function that is kept calls it.
    CalledBy(FuncId),
    /// A function whose results are remembered needs it.
    MemoDependency,
}

impl ReachableReason {
    /// The function can certainly be called.
    pub fn is_definite(&self) -> (r: bool)
        ensures
            r == (*self == ReachableReason::Entry || *self == ReachableReason::ExternC || *self
                == ReachableReason::ExternAttr),
    {
        matches!(self, ReachableReason::Entry | ReachableReason::ExternC | ReachableReason::ExternAttr)
    }

    /// The function may be called from another module.
    pub fn is_conservative(&self) -> (r: bool)
        ensures
            r == (*self == ReachableReason::TraitMethod || *self == ReachableReason::TypeMethod || *self
                == ReachableReason::Public),
    {
        matches!(self, ReachableReason::TraitMethod | ReachableReason::TypeMethod | ReachableReason::Public)
    }
}

/// A reason to keep a function by itself is certain or a precaution, never
/// both; one that comes from another function is neither.
pub proof fn law_reasons_are_apart(r: ReachableReason)
    ensures
        ({
            let definite = r == ReachableReason::Entry || r == ReachableReason::ExternC || r
                == ReachableReason::ExternAttr;
            let conservative = r == ReachableReason::TraitMethod || r == ReachableReason::TypeMethod || r
                == ReachableReason::Public;
            &&& !(definite && conservative)
            &&& (definite || conservative) == !(r is CalledBy || r == ReachableReason::MemoDependency)
        }),
{
}

#[derive(Debug)]
pub struct CallGraph {
    pub nodes: Vec<FuncId>,
    /// The functions that each function calls.
    pub edges: Table<Vec<FuncId>>,
    /// The functions that call each function.
    pub reverse: Table<Vec<FuncId>>,
    /// The functions that call themselves, directly or in a circle.
    pub recursive: IdSet,
    /// The groups of functions that call each other in a circle.
    pub mutually_recursive: Vec<Vec<FuncId>>,
    pub entry_reasons: Table<ReachableReason>,
    /// Functions by name, methods by their full name.
    pub name_to_func: NameMap,
    /// The function that the call at an expression reaches.
    pub call_sites: Table<FuncId>,
    pub func_to_method_loc: Table<MethodLoc>,
}

/// The lists of a table.
pub open spec fn lists(t: Map<u32, Vec<FuncId>>) -> Map<u32, Seq<FuncId>> {
    Map::new(|k: u32| t.contains_key(k), |k: u32| t[k]@)
}

/// `a`'s list with `b` behind it, unless it holds `b` already.
pub open spec fn with_item(m: Map<u32, Seq<FuncId>>, a: FuncId, b: FuncId) -> Map<u32, Seq<FuncId>> {
    let list = if m.contains_key(a.0) {
        m[a.0]
    } else {
        seq![]
    };
    m.insert(
        a.0,
        if list.contains(b) {
            list
        } else {
            list.push(b)
        },
    )
}

/// The calls that have been seen.
pub struct Calls {
    pub edges: Map<u32, Seq<FuncId>>,
    pub reverse: Map<u32, Seq<FuncId>>,
    pub recursive: Set<u32>,
    pub sites: Map<u32, FuncId>,
}

/// The name of the function that `e` calls, where `e` is a call and the name is
/// known.
pub open spec fn call_target(sema: SemaResult, module: Seq<char>, e: Expr) -> Option<Seq<char>> {
    match e.kind {
        ExprKind::Call { callee, .. } => match callee.kind {
            ExprKind::Ident(name) => Some(name@),
            _ => None,
        },
        ExprKind::MethodCall { recv, method, .. } | ExprKind::SafeMethodCall { recv, method, .. } => method_target(
            sema,
            module,
            *recv,
            method@,
        ),
        _ => None,
    }
}

/// The calls seen after a look at one more place in the function.
pub open spec fn after_place(
    c: Calls,
    sema: SemaResult,
    module: Seq<char>,
    names: Map<Seq<char>, u32>,
    caller: FuncId,
    caller_name: Seq<char>,
    p: Piece,
) -> Calls {
    match p {
        Piece::Expr(e) | Piece::Tail(e) => match call_target(sema, module, *e) {
            Some(target) => if target == caller_name {
                Calls { recursive: c.recursive.insert(caller.0), ..c }
            } else if names.contains_key(target) {
                let callee = FuncId(names[target]);
                Calls {
                    edges: with_item(c.edges, caller, callee),
                    reverse: with_item(c.reverse, callee, caller),
                    sites: if e.kind is Call {
                        c.sites.insert(e.id.0, callee)
                    } else {
                        c.sites
                    },
                    ..c
                }
            } else {
                c
            },
            None => c,
        },
        Piece::Stmt(_) => c,
    }
}

/// The calls seen after a look at the first `n` places.
pub open spec fn after_places(
    c: Calls,
    sema: SemaResult,
    module: Seq<char>,
    names: Map<Seq<char>, u32>,
    caller: FuncId,
    caller_name: Seq<char>,
    places: Seq<Piece>,
    n: int,
) -> Calls
    decreases n,
{
    if n <= 0 {
        c
    } else {
        after_place(
            after_places(c, sema, module, names, caller, caller_name, places, n - 1),
            sema,
            module,
            names,
            caller,
            caller_name,
            places[n - 1],
        )
    }
}

/// The calls seen after a look at a function's body.
pub open spec fn after_body(
    c: Calls,
    sema: SemaResult,
    module: Seq<char>,
    names: Map<Seq<char>, u32>,
    caller: FuncId,
    caller_name: Seq<char>,
    body: Expr,
) -> Calls {
    let places = reached(Walk::Calls, Piece::Expr(&body));
    after_places(c, sema, module, names, caller, caller_name, places, places.len() as int)
}

/// The name under which the function is registered: a method's full name.
pub open spec fn registered_name(meta: FuncMetaRef) -> Seq<char> {
    match meta.self_type {
        Some(t) => full_name(t@, meta.name@),
        None => meta.name@,
    }
}

/// The calls of the first `n` functions of `metas`.
pub open spec fn calls_upto(sema: SemaResult, m: Module, metas: Seq<(FuncId, FuncMetaRef)>, n: int) -> Calls
    decreases n,
{
    if n <= 0 {
        Calls { edges: Map::empty(), reverse: Map::empty(), recursive: Set::empty(), sites: Map::empty() }
    } else {
        let (f, meta) = metas[n - 1];
        after_body(
            calls_upto(sema, m, metas, n - 1),
            sema,
            m.name@,
            func_names(m),
            f,
            registered_name(meta),
            *meta.body,
        )
    }
}

/// The functions of the module.
pub open spec fn module_metas<'a>(m: Module) -> Seq<(FuncId, FuncMetaRef<'a>)> {
    metas_of(loc_map(m, all_locs(m)), m, func_ids(m))
}

/// The calls of the module.
pub open spec fn module_calls(sema: SemaResult, m: Module) -> Calls {
    let metas = module_metas(m);
    calls_upto(sema, m, metas, metas.len() as int)
}

// ---- why a function is kept ------------------------------------------------

/// The attribute of functions that are called from outside.
pub open spec fn outside_attr() -> Seq<char> {
    seq!['e', 'x', 't', 'e', 'r', 'n']
}

pub open spec fn has_attr(attrs: Seq<Attribute>, name: Seq<char>) -> bool {
    exists|i: int| 0 <= i < attrs.len() && (#[trigger] attrs[i]).name@ == name
}

/// Why a function of that name is kept by itself.
pub open spec fn entry_reason(
    sema: SemaResult,
    is_entry: bool,
    visibility: Visibility,
    has_c_body: bool,
    called_from_outside: bool,
    name: Seq<char>,
) -> Option<ReachableReason> {
    if is_entry {
        Some(ReachableReason::Entry)
    } else if has_c_body {
        Some(ReachableReason::ExternC)
    } else if called_from_outside {
        Some(ReachableReason::ExternAttr)
    } else if has_dot(name) {
        if sema.is_trait_method(owner_part(name), member_part(name)) {
            Some(ReachableReason::TraitMethod)
        } else {
            Some(ReachableReason::TypeMethod)
        }
    } else if visibility == Visibility::Public {
        Some(ReachableReason::Public)
    } else {
        None
    }
}

/// Whether the function's body is given in C, and whether it is called from
/// outside; neither holds of a method.
pub open spec fn outside_marks(m: Module, meta: FuncMetaRef) -> (bool, bool) {
    match meta.func_kind {
        FuncKind::Fun(idx) => match m.declarations@[idx as int] {
            Decl::Fun(f) => (f.has_extern_c_body, has_attr(f.attributes@, outside_attr())),
            _ => (false, false),
        },
        FuncKind::Method(_, _) => (false, false),
    }
}

/// Why the module keeps the function by itself.
pub open spec fn reason_of(sema: SemaResult, m: Module, meta: FuncMetaRef) -> Option<ReachableReason> {
    entry_reason(
        sema,
        meta.is_entry,
        meta.visibility,
        outside_marks(m, meta).0,
        outside_marks(m, meta).1,
        registered_name(meta),
    )
}

/// Why the first `n` functions of `metas` are kept.
pub open spec fn reasons_upto(sema: SemaResult, m: Module, metas: Seq<(FuncId, FuncMetaRef)>, n: int) -> Map<
    u32,
    ReachableReason,
>
    decreases n,
{
    if n <= 0 {
        Map::empty()
    } else {
        let rest = reasons_upto(sema, m, metas, n - 1);
        match reason_of(sema, m, metas[n - 1].1) {
            Some(r) => rest.insert(metas[n - 1].0.0, r),
            None => rest,
        }
    }
}

// ---- the graph -------------------------------------------------------------

/// The numbers of functions.
pub open spec fn raw(s: Seq<FuncId>) -> Seq<u32> {
    s.map_values(|f: FuncId| f.0)
}

impl CallGraph {
    pub open spec fn wf(self) -> bool {
        &&& self.edges.wf()
        &&& self.reverse.wf()
        &&& self.entry_reasons.wf()
        &&& self.call_sites.wf()
        &&& self.func_to_method_loc.wf()
        &&& converse(self.edges@, self.reverse@)
    }

    pub open spec fn calls(self) -> Calls {
        Calls {
            edges: lists(self.edges@),
            reverse: lists(self.reverse@),
            recursive: self.recursive@,
            sites: self.call_sites@,
        }
    }

    /// The functions that the module says something of.
    pub open spec fn metas<'a>(self, m: Module) -> Seq<(FuncId, FuncMetaRef<'a>)> {
        metas_of(self.func_to_method_loc@, m, self.nodes@)
    }

    /// The call graph of the module.
    pub open spec fn of(self, sema: SemaResult, m: Module) -> bool {
        let c = module_calls(sema, m);
        &&& self.wf()
        &&& self.nodes@ == func_ids(m)
        &&& self.func_to_method_loc@ == loc_map(m, all_locs(m))
        &&& self.name_to_func@ == func_names(m)
        &&& lists(self.edges@) == c.edges
        &&& lists(self.reverse@) == c.reverse
        &&& self.call_sites@ == c.sites
        &&& self.entry_reasons@ == reasons_upto(sema, m, module_metas(m), module_metas(m).len() as int)
        &&& groups(self.edges@, raw(self.nodes@), self.mutually_recursive@)
        &&& forall|f: u32| #[trigger]
            self.recursive@.contains(f) <==> c.recursive.contains(f) || in_a_group(
                self.mutually_recursive@,
                FuncId(f),
            )
    }

    pub fn new() -> (g: Self)
        ensures
            g.wf(),
            g.nodes@ == Seq::<FuncId>::empty(),
            g.edges@ == no_entries::<Vec<FuncId>>(),
            g.reverse@ == no_entries::<Vec<FuncId>>(),
            g.recursive@ == Set::<u32>::empty(),
            g.mutually_recursive@ == Seq::<Vec<FuncId>>::empty(),
            g.entry_reasons@ == no_entries::<ReachableReason>(),
            g.name_to_func@ == no_names(),
            g.call_sites@ == no_entries::<FuncId>(),
            g.func_to_method_loc@ == no_entries::<MethodLoc>(),
    {
        CallGraph {
            nodes: Vec::new(),
            edges: Table::new(),
            reverse: Table::new(),
            recursive: IdSet::new(),
            mutually_recursive: Vec::new(),
            entry_reasons: Table::new(),
            name_to_func: NameMap::new(),
            call_sites: Table::new(),
            func_to_method_loc: Table::new(),
        }
    }

    /// Adds a call, once.
    pub fn add_edge(&mut self, caller: FuncId, callee: FuncId)
        requires
            old(self).wf(),
        ensures
            final(self).wf(),
            lists(final(self).edges@) == with_item(lists(old(self).edges@), caller, callee),
            lists(final(self).reverse@) == with_item(lists(old(self).reverse@), callee, caller),
            final(self).nodes == old(self).nodes,
            final(self).recursive == old(self).recursive,
            final(self).mutually_recursive == old(self).mutually_recursive,
            final(self).entry_reasons == old(self).entry_reasons,
            final(self).name_to_func == old(self).name_to_func,
            final(self).call_sites == old(self).call_sites,
            final(self).func_to_method_loc == old(self).func_to_method_loc,
    {
        append(&mut self.edges, caller, callee);
        append(&mut self.reverse, callee, caller);
        proof {
            assert forall|a: u32, b: u32| #[trigger] edge(self.edges@, a, b) <==> edge(self.reverse@, b, a) by {
                assert(edge(old(self).edges@, a, b) <==> edge(old(self).reverse@, b, a));
            }
        }
    }

    /// Whether the function is a method.
    pub fn is_method(&self, func: FuncId) -> (r: bool)
        ensures
            r == self.func_to_method_loc@.contains_key(func.0),
    {
        self.func_to_method_loc.contains_key(func.0)
    }

    /// What the module says of a function or method.
    pub fn get_func_meta<'a>(&self, func: FuncId, module: &'a Module) -> (r: Option<FuncMetaRef<'a>>)
        ensures
            r == meta_of(self.func_to_method_loc@, *module, func),
    {
        func_meta(&self.func_to_method_loc, module, func)
    }

    /// The functions and methods that the module says something of, in order.
    pub fn iter_funcs<'a>(&self, module: &'a Module) -> (r: Vec<(FuncId, FuncMetaRef<'a>)>)
        ensures
            r@ == self.metas(*module),
    {
        func_metas(&self.func_to_method_loc, module, &self.nodes)
    }

    /// Notes the call that a place makes.
    fn note_place(&mut self, p: Piece, caller: FuncId, caller_name: &String, module_name: &String, sema: &SemaResult)
        requires
            old(self).wf(),
        ensures
            final(self).wf(),
            final(self).calls() == after_place(
                old(self).calls(),
                *sema,
                module_name@,
                old(self).name_to_func@,
                caller,
                caller_name@,
                p,
            ),
            final(self).nodes == old(self).nodes,
            final(self).mutually_recursive == old(self).mutually_recursive,
            final(self).entry_reasons == old(self).entry_reasons,
            final(self).name_to_func == old(self).name_to_func,
            final(self).func_to_method_loc == old(self).func_to_method_loc,
    {
        if let Piece::Expr(e) | Piece::Tail(e) = p {
            if let Some((target, is_site)) = resolve_call(e, module_name, sema) {
                if target == *caller_name {
                    self.recursive.insert(caller.0);
                } else if let Some(f) = self.name_to_func.get(target.as_str()) {
                    self.add_edge(caller, FuncId(f));
                    if is_site {
                        self.call_sites.put(e.id.0, FuncId(f));
                    }
                }
            }
        }
    }

    /// Notes the calls that a function's body makes.
    fn collect_call_edges(
        &mut self,
        body: &Expr,
        caller: FuncId,
        caller_name: &String,
        module_name: &String,
        sema: &SemaResult,
    )
        requires
            old(self).wf(),
        ensures
            final(self).wf(),
            final(self).calls() == after_body(
                old(self).calls(),
                *sema,
                module_name@,
                old(self).name_to_func@,
                caller,
                caller_name@,
                *body,
            ),
            final(self).nodes == old(self).nodes,
            final(self).mutually_recursive == old(self).mutually_recursive,
            final(self).entry_reasons == old(self).entry_reasons,
            final(self).name_to_func == old(self).name_to_func,
            final(self).func_to_method_loc == old(self).func_to_method_loc,
    {
        let ghost first = *self;
        let places = reach(Walk::Calls, Piece::Expr(body));
        let mut i: usize = 0;
        while i < places.len()
            invariant
                i <= places@.len(),
                self.wf(),
                self.calls() == after_places(
                    first.calls(),
                    *sema,
                    module_name@,
                    first.name_to_func@,
                    caller,
                    caller_name@,
                    places@,
                    i as int,
                ),
                self.nodes == first.nodes,
                self.mutually_recursive == first.mutually_recursive,
                self.entry_reasons == first.entry_reasons,
                self.name_to_func == first.name_to_func,
                self.func_to_method_loc == first.func_to_method_loc,
            decreases places@.len() - i,
        {
            self.note_place(places[i], caller, caller_name, module_name, sema);
            i = i + 1;
        }
    }

    /// Finds the functions that call each other in a circle; they count as
    /// recursive too.
    fn detect_recursion(&mut self)
        requires
            old(self).wf(),
        ensures
            final(self).wf(),
            groups(final(self).edges@, raw(final(self).nodes@), final(self).mutually_recursive@),
            forall|f: u32| #[trigger]
                final(self).recursive@.contains(f) <==> old(self).recursive@.contains(f) || in_a_group(
                    final(self).mutually_recursive@,
                    FuncId(f),
                ),
            final(self).nodes == old(self).nodes,
            final(self).edges == old(self).edges,
            final(self).reverse == old(self).reverse,
            final(self).entry_reasons == old(self).entry_reasons,
            final(self).name_to_func == old(self).name_to_func,
            final(self).call_sites == old(self).call_sites,
            final(self).func_to_method_loc == old(self).func_to_method_loc,
    {
        let mut nodes: Vec<u32> = Vec::new();
        let mut i: usize = 0;
        while i < self.nodes.len()
            invariant
                i <= self.nodes@.len(),
                nodes@ =~= raw(self.nodes@.take(i as int)),
            decreases self.nodes@.len() - i,
        {
            nodes.push(self.nodes[i].0);
            i = i + 1;
        }
        assert(self.nodes@.take(i as int) =~= self.nodes@);
        let all = find_groups(&self.edges, &self.reverse, &nodes);
        let gs = keep_circles(&all, Ghost(self.edges@), Ghost(nodes@));
        let ghost start = self.recursive@;
        let mut k: usize = 0;
        while k < gs.len()
            invariant
                k <= gs@.len(),
                forall|f: u32| #[trigger]
                    self.recursive@.contains(f) <==> start.contains(f) || in_a_group(gs@.take(k as int), FuncId(f)),
                self.nodes == old(self).nodes,
                self.edges == old(self).edges,
                self.reverse == old(self).reverse,
                self.entry_reasons == old(self).entry_reasons,
                self.name_to_func == old(self).name_to_func,
                self.call_sites == old(self).call_sites,
                self.func_to_method_loc == old(self).func_to_method_loc,
            decreases gs@.len() - k,
        {
            let g = &gs[k];
            let ghost before = self.recursive@;
            let mut j: usize = 0;
            while j < g.len()
                invariant
                    j <= g@.len(),
                    forall|f: u32| #[trigger]
                        self.recursive@.contains(f) <==> before.contains(f) || g@.take(j as int).contains(FuncId(f)),
                    self.nodes == old(self).nodes,
                    self.edges == old(self).edges,
                    self.reverse == old(self).reverse,
                    self.entry_reasons == old(self).entry_reasons,
                    self.name_to_func == old(self).name_to_func,
                    self.call_sites == old(self).call_sites,
                    self.func_to_method_loc == old(self).func_to_method_loc,
                decreases g@.len() - j,
            {
                let w = g[j];
                let ghost a = g@.take(j as int);
                let ghost b = g@.take(j + 1);
                assert(b =~= a.push(w));
                assert forall|x: FuncId| b.contains(x) <==> (a.contains(x) || x == w) by {
                    assert(b.last() == w);
                    if a.contains(x) {
                        let n = choose|n: int| 0 <= n < a.len() && a[n] == x;
                        assert(b[n] == x);
                    }
                }
                self.recursive.insert(w.0);
                j = j + 1;
            }
            assert(g@.take(j as int) =~= g@);
            k = k + 1;
            assert forall|f: u32| #[trigger]
                self.recursive@.contains(f) <==> start.contains(f) || in_a_group(gs@.take(k as int), FuncId(f)) by {
                assert(before.contains(f) <==> start.contains(f) || in_a_group(gs@.take(k - 1), FuncId(f)));
                if in_a_group(gs@.take(k - 1), FuncId(f)) {
                    let n = choose|n: int|
                        0 <= n < k - 1 && (#[trigger] gs@.take(k - 1)[n])@.contains(FuncId(f));
                    assert(gs@.take(k as int)[n]@.contains(FuncId(f)));
                }
                if g@.contains(FuncId(f)) {
                    assert(gs@.take(k as int)[k - 1]@.contains(FuncId(f)));
                }
                if in_a_group(gs@.take(k as int), FuncId(f)) {
                    let n = choose|n: int| 0 <= n < k && (#[trigger] gs@.take(k as int)[n])@.contains(FuncId(f));
                    if n < k - 1 {
                        assert(gs@.take(k - 1)[n]@.contains(FuncId(f)));
                    }
                }
            }
        }
        assert(gs@.take(k as int) =~= gs@);
        self.mutually_recursive = gs;
    }
}

/// The name that a call reaches, and whether the call stands for itself
/// among the call sites.
fn resolve_call(e: &Expr, module_name: &String, sema: &SemaResult) -> (r: Option<(String, bool)>)
    ensures
        match r {
            Some(t) => call_target(*sema, module_name@, *e) == Some(t.0@) && t.1 == e.kind is Call,
            None => call_target(*sema, module_name@, *e) is None,
        },
{
    match &e.kind {
        ExprKind::Call { callee, .. } => match ident_of(callee) {
            Some(name) => Some((name.clone(), true)),
            None => None,
        },
        ExprKind::MethodCall { recv, method, .. } | ExprKind::SafeMethodCall { recv, method, .. } => {
            match resolve_method_mangled(recv, method, module_name, sema) {
                Some(target) => Some((target, false)),
                None => None,
            }
        },
        _ => None,
    }
}

/// Puts `b` behind `a`'s list, unless the list holds it already.
fn append(t: &mut Table<Vec<FuncId>>, a: FuncId, b: FuncId)
    requires
        old(t).wf(),
    ensures
        final(t).wf(),
        lists(final(t)@) == with_item(lists(old(t)@), a, b),
        forall|x: u32, y: u32| #[trigger] edge(final(t)@, x, y) <==> edge(old(t)@, x, y) || (x == a.0 && y == b.0),
{
    let mut list: Vec<FuncId> = Vec::new();
    let mut known: bool = false;
    let ghost before = succ(t@, a.0);
    if let Some(items) = t.get(a.0) {
        let mut i: usize = 0;
        while i < items.len()
            invariant
                i <= items@.len(),
                items@ == before,
                list@ == items@.take(i as int),
                known == items@.take(i as int).contains(b),
            decreases items@.len() - i,
        {
            let ghost p = items@.take(i as int);
            let ghost q = items@.take(i + 1);
            assert(q =~= p.push(items@[i as int]));
            assert(q.contains(b) <==> p.contains(b) || items@[i as int] == b) by {
                assert(q.last() == items@[i as int]);
                if p.contains(b) {
                    let n = choose|n: int| 0 <= n < p.len() && p[n] == b;
                    assert(q[n] == b);
                }
            }
            if items[i] == b {
                known = true;
            }
            list.push(items[i]);
            i = i + 1;
        }
        assert(items@.take(i as int) =~= items@);
    }
    assert(list@ =~= before);
    assert(known == before.contains(b));
    if !known {
        list.push(b);
    }
    let ghost now = list@;
    t.put(a.0, list);
    proof {
        assert(lists(t@) =~= with_item(lists(old(t)@), a, b));
        assert forall|y: FuncId| now.contains(y) <==> before.contains(y) || y == b by {
            if !known {
                assert(now.last() == b);
                if before.contains(y) {
                    let n = choose|n: int| 0 <= n < before.len() && before[n] == y;
                    assert(now[n] == y);
                }
            }
        }
        assert forall|x: u32, y: u32| #[trigger]
            edge(t@, x, y) <==> edge(old(t)@, x, y) || (x == a.0 && y == b.0) by {
            if x == a.0 {
                assert(succ(t@, x) == now);
                assert(succ(old(t)@, x) == before);
            } else {
                assert(succ(t@, x) == succ(old(t)@, x));
            }
        }
    }
}

fn has_outside_attr(attrs: &Vec<Attribute>) -> (r: bool)
    ensures
        r == has_attr(attrs@, outside_attr()),
{
    let name: String = "extern".to_string();
    proof {
        reveal_strlit("extern");
        assert(name@ =~= outside_attr());
    }
    let mut i: usize = 0;
    while i < attrs.len()
        invariant
            i <= attrs@.len(),
            name@ == outside_attr(),
            forall|k: int| 0 <= k < i ==> (#[trigger] attrs@[k]).name@ != outside_attr(),
        decreases attrs@.len() - i,
    {
        if attrs[i].name == name {
            return true;
        }
        i = i + 1;
    }
    false
}

/// Why a function of that name is kept by itself.
pub fn mark_entry_reason(
    sema: &SemaResult,
    is_entry: bool,
    visibility: Visibility,
    has_c_body: bool,
    called_from_outside: bool,
    name: &String,
) -> (r: Option<ReachableReason>)
    ensures
        r == entry_reason(*sema, is_entry, visibility, has_c_body, called_from_outside, name@),
{
    if is_entry {
        return Some(ReachableReason::Entry);
    }
    if has_c_body {
        return Some(ReachableReason::ExternC);
    }
    if called_from_outside {
        return Some(ReachableReason::ExternAttr);
    }
    if let Some((owner, member)) = split_member(name) {
        if sema.implements_trait_method(&owner, &member) {
            return Some(ReachableReason::TraitMethod);
        }
        return Some(ReachableReason::TypeMethod);
    }
    if visibility == Visibility::Public {
        return Some(ReachableReason::Public);
    }
    None
}

fn name_in_graph(meta: FuncMetaRef) -> (r: String)
    ensures
        r@ == registered_name(meta),
{
    match meta.self_type {
        Some(t) => mangle(t, meta.name),
        None => meta.name.clone(),
    }
}

fn marks_of(module: &Module, meta: FuncMetaRef) -> (r: (bool, bool))
    requires
        meta.func_kind matches FuncKind::Fun(idx) ==> idx < module.declarations@.len(),
    ensures
        r == outside_marks(*module, meta),
{
    match meta.func_kind {
        FuncKind::Fun(idx) => match &module.declarations[idx] {
            Decl::Fun(f) => (f.has_extern_c_body, has_outside_attr(&f.attributes)),
            _ => (false, false),
        },
        FuncKind::Method(_, _) => (false, false),
    }
}

proof fn lemma_meta_kinds(locs: Map<u32, MethodLoc>, m: Module, nodes: Seq<FuncId>)
    ensures
        forall|i: int|
            0 <= i < metas_of(locs, m, nodes).len() ==> ((#[trigger] metas_of(locs, m, nodes)[i]).1.func_kind matches
                FuncKind::Fun(idx) ==> idx < m.declarations@.len()),
    decreases nodes.len(),
{
    if nodes.len() > 0 {
        lemma_meta_kinds(locs, m, nodes.drop_last());
    }
}

/// The call graph of a module.
pub fn build_call_graph(module: &Module, sema: &SemaResult) -> (cg: CallGraph)
    requires
        functions_fit(*module),
    ensures
        cg.of(*sema, *module),
{
    let mut cg = CallGraph::new();
    let fs = list_functions(module);
    let metas = func_metas(&fs.locs, module, &fs.nodes);
    cg.nodes = fs.nodes;
    cg.func_to_method_loc = fs.locs;
    cg.name_to_func = fs.names;
    let ghost nodes = func_ids(*module);
    let ghost locs = loc_map(*module, all_locs(*module));
    proof {
        lemma_meta_kinds(locs, *module, nodes);
        assert(lists(cg.edges@) =~= Map::<u32, Seq<FuncId>>::empty());
        assert(lists(cg.reverse@) =~= Map::<u32, Seq<FuncId>>::empty());
        assert(cg.calls() == calls_upto(*sema, *module, metas@, 0));
    }
    let mut i: usize = 0;
    while i < metas.len()
        invariant
            i <= metas@.len(),
            metas@ == module_metas(*module),
            nodes == func_ids(*module),
            locs == loc_map(*module, all_locs(*module)),
            forall|k: int|
                0 <= k < metas@.len() ==> ((#[trigger] metas@[k]).1.func_kind matches FuncKind::Fun(idx) ==> idx
                    < module.declarations@.len()),
            cg.wf(),
            cg.nodes@ == nodes,
            cg.func_to_method_loc@ == locs,
            cg.name_to_func@ == func_names(*module),
            cg.mutually_recursive@.len() == 0,
            cg.calls() == calls_upto(*sema, *module, metas@, i as int),
            cg.entry_reasons@ == reasons_upto(*sema, *module, metas@, i as int),
        decreases metas@.len() - i,
    {
        let (fid, meta) = metas[i];
        assert(metas@[i as int].1.func_kind matches FuncKind::Fun(idx) ==> idx < module.declarations@.len());
        let name = name_in_graph(meta);
        let marks = marks_of(module, meta);
        let reason = mark_entry_reason(sema, meta.is_entry, meta.visibility, marks.0, marks.1, &name);
        if let Some(r) = reason {
            cg.entry_reasons.put(fid.0, r);
        }
        cg.collect_call_edges(meta.body, fid, &name, &module.name, sema);
        i = i + 1;
    }
    cg.detect_recursion();
    cg
}

// ---- laws ------------------------------------------------------------------

/// What has been seen of calls stays.
spec fn keeps(a: Calls, b: Calls) -> bool {
    &&& forall|x: u32, y: FuncId|
        a.edges.contains_key(x) && #[trigger] a.edges[x].contains(y) ==> b.edges.contains_key(x) && b.edges[x].contains(y)
    &&& forall|x: u32, y: FuncId|
        a.reverse.contains_key(x) && #[trigger] a.reverse[x].contains(y) ==> b.reverse.contains_key(x)
            && b.reverse[x].contains(y)
    &&& a.recursive.subset_of(b.recursive)
    &&& forall|x: u32| #[trigger] a.sites.contains_key(x) ==> b.sites.contains_key(x)
}

proof fn lemma_with_item(m: Map<u32, Seq<FuncId>>, a: FuncId, b: FuncId, x: u32, y: FuncId)
    ensures
        with_item(m, a, b).contains_key(a.0) && with_item(m, a, b)[a.0].contains(b),
        m.contains_key(x) && m[x].contains(y) ==> with_item(m, a, b).contains_key(x) && with_item(m, a, b)[x].contains(y),
        with_item(m, a, b).contains_key(x) && with_item(m, a, b)[x].contains(y) ==> (m.contains_key(x) && m[x].contains(
            y,
        )) || (x == a.0 && y == b),
{
    let list = if m.contains_key(a.0) {
        m[a.0]
    } else {
        seq![]
    };
    assert(list.push(b)[list.len() as int] == b);
    if list.contains(y) {
        let k = choose|k: int| 0 <= k < list.len() && list[k] == y;
        assert(list.push(b)[k] == y);
    }
    if list.push(b).contains(y) {
        let k = choose|k: int| 0 <= k < list.push(b).len() && list.push(b)[k] == y;
        if k < list.len() {
            assert(list[k] == y);
        }
    }
}

proof fn lemma_place_keeps(
    c: Calls,
    sema: SemaResult,
    module: Seq<char>,
    names: Map<Seq<char>, u32>,
    caller: FuncId,
    caller_name: Seq<char>,
    p: Piece,
)
    ensures
        keeps(c, after_place(c, sema, module, names, caller, caller_name, p)),
{
    let d = after_place(c, sema, module, names, caller, caller_name, p);
    assert forall|x: u32, y: FuncId| c.edges.contains_key(x) && #[trigger] c.edges[x].contains(y) implies d.edges.contains_key(
        x,
    ) && d.edges[x].contains(y) by {
        if let Piece::Expr(e) | Piece::Tail(e) = p {
            if let Some(t) = call_target(sema, module, *e) {
                lemma_with_item(c.edges, caller, FuncId(names[t]), x, y);
            }
        }
    }
    assert forall|x: u32, y: FuncId| c.reverse.contains_key(x) && #[trigger] c.reverse[x].contains(y) implies d.reverse.contains_key(
        x,
    ) && d.reverse[x].contains(y) by {
        if let Piece::Expr(e) | Piece::Tail(e) = p {
            if let Some(t) = call_target(sema, module, *e) {
                lemma_with_item(c.reverse, FuncId(names[t]), caller, x, y);
            }
        }
    }
}

proof fn lemma_places_keep(
    c: Calls,
    sema: SemaResult,
    module: Seq<char>,
    names: Map<Seq<char>, u32>,
    caller: FuncId,
    caller_name: Seq<char>,
    places: Seq<Piece>,
    k: int,
    n: int,
)
    requires
        0 <= k <= n,
    ensures
        keeps(
            after_places(c, sema, module, names, caller, caller_name, places, k),
            after_places(c, sema, module, names, caller, caller_name, places, n),
        ),
    decreases n - k,
{
    if k < n {
        lemma_places_keep(c, sema, module, names, caller, caller_name, places, k, n - 1);
        lemma_place_keeps(
            after_places(c, sema, module, names, caller, caller_name, places, n - 1),
            sema,
            module,
            names,
            caller,
            caller_name,
            places[n - 1],
        );
    }
}

proof fn lemma_calls_keep(sema: SemaResult, m: Module, metas: Seq<(FuncId, FuncMetaRef)>, k: int, n: int)
    requires
        0 <= k <= n,
    ensures
        keeps(calls_upto(sema, m, metas, k), calls_upto(sema, m, metas, n)),
    decreases n - k,
{
    if k < n {
        lemma_calls_keep(sema, m, metas, k, n - 1);
        let (f, meta) = metas[n - 1];
        let places = reached(Walk::Calls, Piece::Expr(meta.body));
        lemma_places_keep(
            calls_upto(sema, m, metas, n - 1),
            sema,
            m.name@,
            func_names(m),
            f,
            registered_name(meta),
            places,
            0,
            places.len() as int,
        );
    }
}

/// A call by name in a function's body, outside inline traits, is an edge to
/// the function of that name, in both directions, and its place is known; a call
/// of the function's own name makes it recursive.
pub proof fn law_named_calls_are_edges(
    sema: SemaResult,
    m: Module,
    metas: Seq<(FuncId, FuncMetaRef)>,
    n: int,
    i: int,
    e: Expr,
    name: String,
)
    requires
        0 <= i < n <= metas.len(),
        reached(Walk::Calls, Piece::Expr(metas[i].1.body)).contains(Piece::Expr(&e)),
        e.kind is Call,
        e.kind->callee.kind == ExprKind::Ident(name),
    ensures
        ({
            let c = calls_upto(sema, m, metas, n);
            let f = metas[i].0;
            let own = match metas[i].1.self_type {
                Some(t) => full_name(t@, metas[i].1.name@),
                None => metas[i].1.name@,
            };
            &&& name@ == own ==> c.recursive.contains(f.0)
            &&& name@ != own && func_names(m).contains_key(name@) ==> {
                let g = FuncId(func_names(m)[name@]);
                &&& c.edges.contains_key(f.0) && c.edges[f.0].contains(g)
                &&& c.reverse.contains_key(g.0) && c.reverse[g.0].contains(f)
                &&& c.sites.contains_key(e.id.0)
            }
        }),
{
    let (f, meta) = metas[i];
    let names = func_names(m);
    let own = registered_name(meta);
    let places = reached(Walk::Calls, Piece::Expr(meta.body));
    let k = choose|k: int| 0 <= k < places.len() && places[k] == Piece::Expr(&e);
    let start = calls_upto(sema, m, metas, i);
    let before = after_places(start, sema, m.name@, names, f, own, places, k);
    let here = after_places(start, sema, m.name@, names, f, own, places, k + 1);
    let done = calls_upto(sema, m, metas, i + 1);
    assert(call_target(sema, m.name@, e) == Some(name@));
    assert(here == after_place(before, sema, m.name@, names, f, own, Piece::Expr(&e)));
    lemma_places_keep(start, sema, m.name@, names, f, own, places, k + 1, places.len() as int);
    lemma_calls_keep(sema, m, metas, i + 1, n);
    if name@ != own && names.contains_key(name@) {
        let g = FuncId(names[name@]);
        lemma_with_item(before.edges, f, g, f.0, g);
        lemma_with_item(before.reverse, g, f, g.0, f);
        assert(here.edges[f.0].contains(g));
        assert(here.reverse[g.0].contains(f));
        assert(here.sites.contains_key(e.id.0));
        assert(done.edges[f.0].contains(g));
        assert(done.reverse[g.0].contains(f));
    }
}

/// Every edge comes from a call in the caller's body: of the callee's name, or of
/// a method.
pub proof fn law_edges_are_calls(sema: SemaResult, m: Module, metas: Seq<(FuncId, FuncMetaRef)>, n: int, f: u32, g: FuncId) -> (w: (
    int,
    Expr,
))
    requires
        0 <= n <= metas.len(),
        calls_upto(sema, m, metas, n).edges.contains_key(f),
        calls_upto(sema, m, metas, n).edges[f].contains(g),
    ensures
        0 <= w.0 < n,
        metas[w.0].0 == FuncId(f),
        reached(Walk::Calls, Piece::Expr(metas[w.0].1.body)).contains(Piece::Expr(&w.1)) || reached(
            Walk::Calls,
            Piece::Expr(metas[w.0].1.body),
        ).contains(Piece::Tail(&w.1)),
        match w.1.kind {
            ExprKind::Call { callee, .. } => callee.kind matches ExprKind::Ident(name) && func_names(m).contains_key(name@)
                && func_names(m)[name@] == g.0,
            ExprKind::MethodCall { .. } | ExprKind::SafeMethodCall { .. } => true,
            _ => false,
        },
    decreases n,
{
    if n == 0 {
        (0, arbitrary())
    } else {
        let c = calls_upto(sema, m, metas, n - 1);
        let (h, meta) = metas[n - 1];
        if c.edges.contains_key(f) && c.edges[f].contains(g) {
            law_edges_are_calls(sema, m, metas, n - 1, f, g)
        } else {
            let places = reached(Walk::Calls, Piece::Expr(meta.body));
            let e = lemma_new_edge(
                c,
                sema,
                m.name@,
                func_names(m),
                h,
                registered_name(meta),
                places,
                places.len() as int,
                f,
                g,
            );
            (n - 1, e)
        }
    }
}

proof fn lemma_new_edge(
    c: Calls,
    sema: SemaResult,
    module: Seq<char>,
    names: Map<Seq<char>, u32>,
    caller: FuncId,
    caller_name: Seq<char>,
    places: Seq<Piece>,
    n: int,
    f: u32,
    g: FuncId,
) -> (e: Expr)
    requires
        0 <= n <= places.len(),
        !(c.edges.contains_key(f) && c.edges[f].contains(g)),
        after_places(c, sema, module, names, caller, caller_name, places, n).edges.contains_key(f),
        after_places(c, sema, module, names, caller, caller_name, places, n).edges[f].contains(g),
    ensures
        caller.0 == f,
        places.contains(Piece::Expr(&e)) || places.contains(Piece::Tail(&e)),
        match e.kind {
            ExprKind::Call { callee, .. } => callee.kind matches ExprKind::Ident(name) && names.contains_key(name@)
                && names[name@] == g.0,
            ExprKind::MethodCall { .. } | ExprKind::SafeMethodCall { .. } => true,
            _ => false,
        },
    decreases n,
{
    if n == 0 {
        arbitrary()
    } else {
        let d = after_places(c, sema, module, names, caller, caller_name, places, n - 1);
        if d.edges.contains_key(f) && d.edges[f].contains(g) {
            lemma_new_edge(c, sema, module, names, caller, caller_name, places, n - 1, f, g)
        } else {
            let p = places[n - 1];
            assert(places.contains(p));
            match p {
                Piece::Expr(e) | Piece::Tail(e) => {
                    if let Some(t) = call_target(sema, module, *e) {
                        lemma_with_item(d.edges, caller, FuncId(names[t]), f, g);
                    }
                    *e
                },
                Piece::Stmt(_) => arbitrary(),
            }
        }
    }
}

/// Why a function is kept by itself: because the program starts there, its body
/// is given in C, it is called from outside, it is a method, or it is public, in
/// this order. Any other function is not.
pub proof fn law_reasons_to_keep(
    sema: SemaResult,
    is_entry: bool,
    visibility: Visibility,
    has_c_body: bool,
    called_from_outside: bool,
    name: Seq<char>,
)
    ensures
        ({
            let r = entry_reason(sema, is_entry, visibility, has_c_body, called_from_outside, name);
            &&& is_entry <==> r == Some(ReachableReason::Entry)
            &&& !is_entry && has_c_body <==> r == Some(ReachableReason::ExternC)
            &&& !is_entry && !has_c_body && called_from_outside <==> r == Some(ReachableReason::ExternAttr)
            &&& !is_entry && !has_c_body && !called_from_outside && name.contains('.') <==> r == Some(
                ReachableReason::TraitMethod,
            ) || r == Some(ReachableReason::TypeMethod)
            &&& r == Some(ReachableReason::TraitMethod) ==> sema.is_trait_method(owner_part(name), member_part(name))
            &&& r == Some(ReachableReason::TypeMethod) ==> !sema.is_trait_method(owner_part(name), member_part(name))
            &&& !is_entry && !has_c_body && !called_from_outside && !name.contains('.') && visibility == Visibility::Public
                <==> r == Some(ReachableReason::Public)
            &&& r is None <==> !is_entry && !has_c_body && !called_from_outside && !name.contains('.') && visibility
                != Visibility::Public
        }),
{
    crate::names::law_members_have_a_dot(name);
}

/// The functions with a reason to be kept are those for which there is one, each
/// with its own.
pub proof fn law_reasons_are_recorded(sema: SemaResult, m: Module, metas: Seq<(FuncId, FuncMetaRef)>, n: int, i: int)
    requires
        0 <= i < n <= metas.len(),
        forall|j: int| i < j < n ==> (#[trigger] metas[j]).0 != metas[i].0,
        forall|j: int| 0 <= j < i ==> (#[trigger] metas[j]).0 != metas[i].0,
    ensures
        reasons_upto(sema, m, metas, n).contains_key(metas[i].0.0) <==> reason_of(sema, m, metas[i].1) is Some,
        reason_of(sema, m, metas[i].1) matches Some(r) ==> reasons_upto(sema, m, metas, n)[metas[i].0.0] == r,
    decreases n,
{
    if i < n - 1 {
        law_reasons_are_recorded(sema, m, metas, n - 1, i);
        assert(metas[n - 1].0 != metas[i].0);
    } else {
        lemma_no_reason_yet(sema, m, metas, n - 1, metas[i].0);
    }
}

proof fn lemma_no_reason_yet(sema: SemaResult, m: Module, metas: Seq<(FuncId, FuncMetaRef)>, n: int, f: FuncId)
    requires
        0 <= n <= metas.len(),
        forall|j: int| 0 <= j < n ==> (#[trigger] metas[j]).0 != f,
    ensures
        !reasons_upto(sema, m, metas, n).contains_key(f.0),
    decreases n,
{
    if n > 0 {
        assert(metas[n - 1].0 != f);
        lemma_no_reason_yet(sema, m, metas, n - 1, f);
    }
}

/// A declared function with a body in C, or with the attribute of functions that
/// are called from outside, is marked so; a method is not.
pub proof fn law_outside_marks(m: Module, meta: FuncMetaRef, d: usize, k: int)
    ensures
        meta.func_kind == FuncKind::Fun(d) ==> (m.declarations@[d as int] matches Decl::Fun(f) ==> {
            &&& outside_marks(m, meta).0 == f.has_extern_c_body
            &&& 0 <= k < f.attributes@.len() && f.attributes@[k].name@ == seq!['e', 'x', 't', 'e', 'r', 'n']
                ==> outside_marks(m, meta).1
            &&& f.attributes@.len() == 0 ==> !outside_marks(m, meta).1
        }),
        meta.func_kind is Method ==> outside_marks(m, meta) == (false, false),
{
}

/// So is a method call on a receiver whose type is known: an edge to the method
/// of that type.
pub proof fn law_method_calls_are_edges(
    sema: SemaResult,
    m: Module,
    metas: Seq<(FuncId, FuncMetaRef)>,
    n: int,
    i: int,
    e: Expr,
    recv: Expr,
    method: String,
    ty: Seq<char>,
)
    requires
        0 <= i < n <= metas.len(),
        reached(Walk::Calls, Piece::Expr(metas[i].1.body)).contains(Piece::Expr(&e)),
        match e.kind {
            ExprKind::MethodCall { recv: r, method: x, .. } | ExprKind::SafeMethodCall { recv: r, method: x, .. } => *r
                == recv && x == method,
            _ => false,
        },
        sema.type_of(m.name@, recv.id) == Some(ty),
    ensures
        ({
            let c = calls_upto(sema, m, metas, n);
            let f = metas[i].0;
            let own = match metas[i].1.self_type {
                Some(t) => full_name(t@, metas[i].1.name@),
                None => metas[i].1.name@,
            };
            let target = full_name(ty, method@);
            &&& target == own ==> c.recursive.contains(f.0)
            &&& target != own && func_names(m).contains_key(target) ==> {
                let g = FuncId(func_names(m)[target]);
                &&& c.edges.contains_key(f.0) && c.edges[f.0].contains(g)
                &&& c.reverse.contains_key(g.0) && c.reverse[g.0].contains(f)
            }
        }),
{
    let (f, meta) = metas[i];
    let names = func_names(m);
    let own = registered_name(meta);
    let target = full_name(ty, method@);
    let places = reached(Walk::Calls, Piece::Expr(meta.body));
    let k = choose|k: int| 0 <= k < places.len() && places[k] == Piece::Expr(&e);
    let start = calls_upto(sema, m, metas, i);
    let before = after_places(start, sema, m.name@, names, f, own, places, k);
    let here = after_places(start, sema, m.name@, names, f, own, places, k + 1);
    let done = calls_upto(sema, m, metas, i + 1);
    assert(call_target(sema, m.name@, e) == Some(target));
    assert(here == after_place(before, sema, m.name@, names, f, own, Piece::Expr(&e)));
    lemma_places_keep(start, sema, m.name@, names, f, own, places, k + 1, places.len() as int);
    lemma_calls_keep(sema, m, metas, i + 1, n);
    if target != own && names.contains_key(target) {
        let g = FuncId(names[target]);
        lemma_with_item(before.edges, f, g, f.0, g);
        lemma_with_item(before.reverse, g, f, g.0, f);
        assert(here.edges[f.0].contains(g));
        assert(here.reverse[g.0].contains(f));
        assert(done.edges[f.0].contains(g));
        assert(done.reverse[g.0].contains(f));
    }
}

} // verus!
