//! Functions that are small and simple enough to stand in place of their calls.

use super::call_graph::{CallGraph, ReachableReason};
use super::functions::FuncMetaRef;
use super::tables::{FuncId, Purity, PurityTable};
use crate::ast::sema::SemaResult;
use crate::ast::tree::{Decl, Expr, ExprKind, Module, StmtKind};
use crate::ast::walk::{reach, reached, Piece, Walk};
use crate::fx::{IdSet, Table};
use vstd::prelude::*;

verus! {

/// The most expressions and statements that an inlined body has.
pub const INLINE_SIZE_THRESHOLD: usize = 15;

#[derive(Debug)]
pub struct InlineReport {
    /// The functions to inline, with the size of their bodies.
    pub candidates: Vec<(FuncId, usize)>,
    /// The calls to expand, with the function that each of them calls.
    pub expansions: Table<FuncId>,
}

/// A property of a place that keeps a body from being inlined, or a defer.
#[derive(Clone, Copy, PartialEq, Eq, Structural)]
pub enum Feature {
    /// A lambda or a local function.
    NestedFunction,
    /// The operator that passes an error on to the caller.
    Propagate,
    Return,
    Defer,
}

pub open spec fn shows(f: Feature, p: Piece) -> bool {
    match p {
        Piece::Expr(e) | Piece::Tail(e) => match f {
            Feature::NestedFunction => e.kind is Lambda,
            Feature::Propagate => e.kind is Propagate,
            _ => false,
        },
        Piece::Stmt(s) => match f {
            Feature::NestedFunction => match s.kind {
                StmtKind::LocalDecl { decl } => *decl is Fun,
                _ => false,
            },
            Feature::Return => s.kind is Return,
            Feature::Defer => s.kind is Defer,
            Feature::Propagate => false,
        },
    }
}

/// Where to look for it: what is deferred does not return from the function,
/// nor pass an error on from it.
pub open spec fn scope_of(f: Feature) -> Walk {
    match f {
        Feature::Propagate | Feature::Return => Walk::NoDefer,
        Feature::NestedFunction | Feature::Defer => Walk::Inner,
    }
}

/// Whether a body holds it, lambdas and local functions left aside.
pub open spec fn holds(f: Feature, body: Expr) -> bool {
    let s = reached(scope_of(f), Piece::Expr(&body));
    exists|i: int| 0 <= i < s.len() && shows(f, #[trigger] s[i])
}

/// Number of expressions and statements of a body, lambdas and local functions
/// left aside.
pub open spec fn node_count(body: Expr) -> nat {
    reached(Walk::Inner, Piece::Expr(&body)).len()
}

fn is_shown(f: Feature, p: Piece) -> (r: bool)
    ensures
        r == shows(f, p),
{
    match p {
        Piece::Expr(e) | Piece::Tail(e) => match f {
            Feature::NestedFunction => matches!(e.kind, ExprKind::Lambda { .. }),
            Feature::Propagate => matches!(e.kind, ExprKind::Propagate(_)),
            _ => false,
        },
        Piece::Stmt(s) => match f {
            Feature::NestedFunction => match &s.kind {
                StmtKind::LocalDecl { decl } => matches!(**decl, Decl::Fun(_)),
                _ => false,
            },
            Feature::Return => matches!(s.kind, StmtKind::Return { .. }),
            Feature::Defer => matches!(s.kind, StmtKind::Defer { .. }),
            Feature::Propagate => false,
        },
    }
}

fn is_held(f: Feature, body: &Expr) -> (r: bool)
    ensures
        r == holds(f, *body),
{
    let walk = match f {
        Feature::Propagate | Feature::Return => Walk::NoDefer,
        Feature::NestedFunction | Feature::Defer => Walk::Inner,
    };
    let places = reach(walk, Piece::Expr(body));
    let mut i: usize = 0;
    while i < places.len()
        invariant
            i <= places@.len(),
            places@ == reached(scope_of(f), Piece::Expr(body)),
            forall|k: int| 0 <= k < i ==> !shows(f, #[trigger] places@[k]),
        decreases places@.len() - i,
    {
        if is_shown(f, places[i]) {
            assert(shows(f, places@[i as int]));
            return true;
        }
        i = i + 1;
    }
    false
}

/// Whether a body holds a lambda or a local function.
pub fn has_nested_function(body: &Expr) -> (r: bool)
    ensures
        r == holds(Feature::NestedFunction, *body),
{
    is_held(Feature::NestedFunction, body)
}

/// Whether a body passes an error on to its caller.
pub fn has_propagate(body: &Expr) -> (r: bool)
    ensures
        r == holds(Feature::Propagate, *body),
{
    is_held(Feature::Propagate, body)
}

/// Whether a body has a `return`.
pub fn has_return(body: &Expr) -> (r: bool)
    ensures
        r == holds(Feature::Return, *body),
{
    is_held(Feature::Return, body)
}

/// Whether a body defers something.
pub fn has_defer(body: &Expr) -> (r: bool)
    ensures
        r == holds(Feature::Defer, *body),
{
    is_held(Feature::Defer, body)
}

/// Number of expressions and statements of a body.
pub fn count_expr_nodes(body: &Expr) -> (n: usize)
    ensures
        n == node_count(*body),
{
    reach(Walk::Inner, Piece::Expr(body)).len()
}

/// Whether the function is kept for certain.
pub open spec fn certain(cg: CallGraph, f: FuncId) -> bool {
    cg.entry_reasons@.contains_key(f.0) && (cg.entry_reasons@[f.0] == ReachableReason::Entry
        || cg.entry_reasons@[f.0] == ReachableReason::ExternC || cg.entry_reasons@[f.0]
        == ReachableReason::ExternAttr)
}

/// Whether calls of the function are to be expanded: it is pure, calls itself
/// nowhere, neither suspends nor throws, is no entry, is small, and holds no
/// nested function, `return`, defer or error propagation.
pub open spec fn inlineable(cg: CallGraph, purity: PurityTable, sema: SemaResult, f: FuncId, meta: FuncMetaRef) -> bool {
    &&& purity.of(f) == Some(Purity::Pure)
    &&& !cg.recursive@.contains(f.0)
    &&& !meta.is_async
    &&& !sema.effectful_fn(meta.name@)
    &&& !certain(cg, f)
    &&& !holds(Feature::NestedFunction, *meta.body)
    &&& !holds(Feature::Propagate, *meta.body)
    &&& !holds(Feature::Return, *meta.body)
    &&& !holds(Feature::Defer, *meta.body)
    &&& node_count(*meta.body) <= INLINE_SIZE_THRESHOLD
}

/// The functions to inline among the first `n`.
pub open spec fn candidates_upto(
    cg: CallGraph,
    purity: PurityTable,
    sema: SemaResult,
    metas: Seq<(FuncId, FuncMetaRef)>,
    n: int,
) -> Seq<(FuncId, usize)>
    decreases n,
{
    if n <= 0 {
        seq![]
    } else {
        let rest = candidates_upto(cg, purity, sema, metas, n - 1);
        let (f, meta) = metas[n - 1];
        if inlineable(cg, purity, sema, f, meta) {
            rest.push((f, node_count(*meta.body) as usize))
        } else {
            rest
        }
    }
}

/// The functions to inline, as a set.
pub open spec fn picked(s: Seq<(FuncId, usize)>, f: FuncId) -> bool {
    exists|i: int| 0 <= i < s.len() && (#[trigger] s[i]).0 == f
}

fn should_inline(cg: &CallGraph, purity: &PurityTable, sema: &SemaResult, f: FuncId, meta: FuncMetaRef) -> (r: Option<
    usize,
>)
    ensures
        match r {
            Some(n) => inlineable(*cg, *purity, *sema, f, meta) && n == node_count(*meta.body),
            None => !inlineable(*cg, *purity, *sema, f, meta),
        },
{
    if !purity.is_pure(f) || cg.recursive.contains(f.0) || meta.is_async || sema.suspends_or_throws(meta.name) {
        return None;
    }
    if let Some(reason) = cg.entry_reasons.get(f.0) {
        if reason.is_definite() {
            return None;
        }
    }
    if has_nested_function(meta.body) || has_propagate(meta.body) || has_return(meta.body) || has_defer(meta.body) {
        return None;
    }
    let n = count_expr_nodes(meta.body);
    if n <= INLINE_SIZE_THRESHOLD {
        Some(n)
    } else {
        None
    }
}

/// The functions to inline, and the calls to expand.
pub fn inline_pass(module: &Module, cg: &CallGraph, purity: &PurityTable, sema: &SemaResult) -> (report: InlineReport)
    requires
        cg.wf(),
    ensures
        report.candidates@ == candidates_upto(
            *cg,
            *purity,
            *sema,
            cg.metas(*module),
            cg.metas(*module).len() as int,
        ),
        report.expansions.wf(),
        forall|e: u32| #[trigger]
            report.expansions@.contains_key(e) <==> cg.call_sites@.contains_key(e) && picked(
                report.candidates@,
                cg.call_sites@[e],
            ),
        forall|e: u32| #[trigger]
            report.expansions@.contains_key(e) ==> report.expansions@[e] == cg.call_sites@[e],
{
    let metas = cg.iter_funcs(module);
    let mut candidates: Vec<(FuncId, usize)> = Vec::new();
    let mut chosen = IdSet::new();
    let mut i: usize = 0;
    while i < metas.len()
        invariant
            i <= metas@.len(),
            candidates@ == candidates_upto(*cg, *purity, *sema, metas@, i as int),
            forall|f: FuncId| #[trigger] chosen@.contains(f.0) <==> picked(candidates@, f),
        decreases metas@.len() - i,
    {
        let (func, meta) = metas[i];
        let ghost before = candidates@;
        if let Some(size) = should_inline(cg, purity, sema, func, meta) {
            candidates.push((func, size));
            chosen.insert(func.0);
            assert forall|f: FuncId| #[trigger] chosen@.contains(f.0) <==> picked(candidates@, f) by {
                assert(picked(candidates@, f) <==> picked(before, f) || f == func) by {
                    assert(candidates@.last().0 == func);
                    if picked(before, f) {
                        let k = choose|k: int| 0 <= k < before.len() && (#[trigger] before[k]).0 == f;
                        assert(candidates@[k].0 == f);
                    }
                }
            }
        }
        i = i + 1;
    }
    let mut expansions: Table<FuncId> = Table::new();
    let mut k: usize = 0;
    while k < cg.call_sites.len()
        invariant
            k <= cg.call_sites.keys().len(),
            cg.wf(),
            expansions.wf(),
            forall|f: FuncId| #[trigger] chosen@.contains(f.0) <==> picked(candidates@, f),
            forall|e: u32| #[trigger]
                expansions@.contains_key(e) <==> cg.call_sites.keys().take(k as int).contains(e) && picked(
                    candidates@,
                    cg.call_sites@[e],
                ),
            forall|e: u32| #[trigger] expansions@.contains_key(e) ==> expansions@[e] == cg.call_sites@[e],
        decreases cg.call_sites.keys().len() - k,
    {
        let e = cg.call_sites.key_at(k);
        let ghost before = expansions@;
        let ghost p = cg.call_sites.keys().take(k as int);
        let ghost q = cg.call_sites.keys().take(k + 1);
        assert(q =~= p.push(e));
        assert forall|x: u32| q.contains(x) <==> p.contains(x) || x == e by {
            assert(q.last() == e);
            if p.contains(x) {
                let n = choose|n: int| 0 <= n < p.len() && p[n] == x;
                assert(q[n] == x);
            }
        }
        assert(cg.call_sites.keys().contains(e));
        assert(cg.call_sites@.contains_key(e));
        if let Some(callee) = cg.call_sites.get(e) {
            if chosen.contains(callee.0) {
                expansions.put(e, *callee);
            }
        }
        assert forall|x: u32| #[trigger]
            expansions@.contains_key(x) <==> q.contains(x) && picked(candidates@, cg.call_sites@[x]) by {
            assert(before.contains_key(x) <==> p.contains(x) && picked(candidates@, cg.call_sites@[x]));
            assert(chosen@.contains(cg.call_sites@[e].0) <==> picked(candidates@, cg.call_sites@[e]));
        }
        k = k + 1;
    }
    assert(cg.call_sites.keys().take(k as int) =~= cg.call_sites.keys());
    assert forall|e: u32| #[trigger]
        expansions@.contains_key(e) <==> cg.call_sites@.contains_key(e) && picked(candidates@, cg.call_sites@[e]) by {
        assert(cg.call_sites@.contains_key(e) <==> cg.call_sites.keys().contains(e));
    }
    InlineReport { candidates, expansions }
}

/// No function that calls itself is inlined, nor an impure one.
pub proof fn law_candidates_are_inlineable(
    cg: CallGraph,
    purity: PurityTable,
    sema: SemaResult,
    metas: Seq<(FuncId, FuncMetaRef)>,
    n: int,
    f: FuncId,
)
    requires
        0 <= n <= metas.len(),
        picked(candidates_upto(cg, purity, sema, metas, n), f),
    ensures
        exists|i: int| 0 <= i < n && (#[trigger] metas[i]).0 == f && inlineable(cg, purity, sema, f, metas[i].1),
        !cg.recursive@.contains(f.0),
        purity.of(f) == Some(Purity::Pure),
    decreases n,
{
    if n > 0 {
        let rest = candidates_upto(cg, purity, sema, metas, n - 1);
        let all = candidates_upto(cg, purity, sema, metas, n);
        let i = choose|i: int| 0 <= i < all.len() && (#[trigger] all[i]).0 == f;
        if i < rest.len() {
            assert(rest[i].0 == f);
            law_candidates_are_inlineable(cg, purity, sema, metas, n - 1, f);
        } else {
            assert(metas[n - 1].0 == f);
        }
    }
}

/// Which functions are inlined: the pure ones that do not call themselves, do
/// not suspend or have effects by name, are no entry and not called from outside,
/// whose body has at most the threshold of places in its scope, and in which no
/// lambda, local function or defer stands, and outside what is deferred no
/// `return` and no propagation.
pub proof fn law_what_is_inlined(cg: CallGraph, purity: PurityTable, sema: SemaResult, f: FuncId, meta: FuncMetaRef)
    ensures
        inlineable(cg, purity, sema, f, meta) <==> {
            let s = reached(Walk::Inner, Piece::Expr(meta.body));
            let t = reached(Walk::NoDefer, Piece::Expr(meta.body));
            &&& purity.of(f) == Some(Purity::Pure)
            &&& !cg.recursive@.contains(f.0)
            &&& !meta.is_async
            &&& !sema.effectful_fn(meta.name@)
            &&& cg.entry_reasons@.contains_key(f.0) ==> cg.entry_reasons@[f.0] != ReachableReason::Entry
                && cg.entry_reasons@[f.0] != ReachableReason::ExternC && cg.entry_reasons@[f.0]
                != ReachableReason::ExternAttr
            &&& s.len() <= 15
            &&& forall|i: int| #![trigger s[i]]
                0 <= i < s.len() ==> match s[i] {
                    Piece::Expr(e) | Piece::Tail(e) => !(e.kind is Lambda),
                    Piece::Stmt(x) => !(x.kind is Defer) && !(x.kind matches StmtKind::LocalDecl { decl } && *decl is Fun),
                }
            &&& forall|i: int| #![trigger t[i]]
                0 <= i < t.len() ==> match t[i] {
                    Piece::Expr(e) | Piece::Tail(e) => !(e.kind is Propagate),
                    Piece::Stmt(x) => !(x.kind is Return),
                }
        },
{
    let body = *meta.body;
    let s = reached(Walk::Inner, Piece::Expr(meta.body));
    let t = reached(Walk::NoDefer, Piece::Expr(meta.body));
    if inlineable(cg, purity, sema, f, meta) {
        assert forall|i: int| #![trigger s[i]] 0 <= i < s.len() implies match s[i] {
            Piece::Expr(e) | Piece::Tail(e) => !(e.kind is Lambda),
            Piece::Stmt(x) => !(x.kind is Defer) && !(x.kind matches StmtKind::LocalDecl { decl } && *decl is Fun),
        } by {
            assert(!shows(Feature::NestedFunction, s[i]));
            assert(!shows(Feature::Defer, s[i]));
        }
        assert forall|i: int| #![trigger t[i]] 0 <= i < t.len() implies match t[i] {
            Piece::Expr(e) | Piece::Tail(e) => !(e.kind is Propagate),
            Piece::Stmt(x) => !(x.kind is Return),
        } by {
            assert(!shows(Feature::Propagate, t[i]));
            assert(!shows(Feature::Return, t[i]));
        }
    }
}

} // verus!
