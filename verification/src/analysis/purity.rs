//! Which functions are pure: those that do nothing impure themselves and call
//! none that does.

use super::call_graph::{raw, CallGraph};
use super::closure::{
    close_within, edge, ids, law_converse_turns_ways_round, law_reach_from_is_least, law_reach_within_all,
    law_reach_within_is_least, reach_from,
    reach_within,
};
use super::functions::FuncMetaRef;
use super::tables::{FuncId, Purity, PurityTable};
use crate::ast::sema::SemaResult;
use crate::ast::tree::{Expr, ExprKind, Module};
use crate::ast::walk::{ident_of, reach, reached, Piece, Walk};
use crate::fx::IdSet;
use vstd::prelude::*;

verus! {

/// The functions of the language that are impure.
#[derive(Debug, Clone, Copy, PartialEq, Eq, Structural, Hash)]
pub enum ImpureBuiltinFn {
    Async,
    Lazy,
    Select,
    Send,
    Recv,
}

/// The impure function of the language that has the name.
pub open spec fn builtin_of(name: Seq<char>) -> Option<ImpureBuiltinFn> {
    if name == "async"@ {
        Some(ImpureBuiltinFn::Async)
    } else if name == "lazy"@ {
        Some(ImpureBuiltinFn::Lazy)
    } else if name == "select"@ {
        Some(ImpureBuiltinFn::Select)
    } else if name == "send"@ {
        Some(ImpureBuiltinFn::Send)
    } else if name == "recv"@ {
        Some(ImpureBuiltinFn::Recv)
    } else {
        None
    }
}

fn same(name: &str, word: &str) -> (r: bool)
    ensures
        r == (name@ == word@),
{
    name.to_string() == word.to_string()
}

impl ImpureBuiltinFn {
    pub fn from_name(name: &str) -> (r: Option<Self>)
        ensures
            r == builtin_of(name@),
    {
        if same(name, "async") {
            Some(ImpureBuiltinFn::Async)
        } else if same(name, "lazy") {
            Some(ImpureBuiltinFn::Lazy)
        } else if same(name, "select") {
            Some(ImpureBuiltinFn::Select)
        } else if same(name, "send") {
            Some(ImpureBuiltinFn::Send)
        } else if same(name, "recv") {
            Some(ImpureBuiltinFn::Recv)
        } else {
            None
        }
    }
}

/// Whether the name is that of an impure function of the language.
pub fn is_impure_builtin(name: &str) -> (r: bool)
    ensures
        r == builtin_of(name@) is Some,
{
    ImpureBuiltinFn::from_name(name).is_some()
}

/// Whether the place is impure whatever the module's own functions do.
pub open spec fn impure_place(sema: SemaResult, p: Piece) -> bool {
    match p {
        Piece::Expr(e) | Piece::Tail(e) => match e.kind {
            ExprKind::Call { callee, .. } => match callee.kind {
                ExprKind::Ident(name) => builtin_of(name@) is Some || sema.effectful_fn(name@),
                _ => true,
            },
            ExprKind::MethodCall { .. }
            | ExprKind::SafeMethodCall { .. }
            | ExprKind::Select(_)
            | ExprKind::InlineTrait(_) => true,
            _ => false,
        },
        Piece::Stmt(_) => false,
    }
}

/// Whether a body does something impure itself.
pub open spec fn directly_impure(sema: SemaResult, body: Expr) -> bool {
    let s = reached(Walk::Inner, Piece::Expr(&body));
    exists|i: int| 0 <= i < s.len() && impure_place(sema, #[trigger] s[i])
}

fn is_impure_place(sema: &SemaResult, p: Piece) -> (r: bool)
    ensures
        r == impure_place(*sema, p),
{
    match p {
        Piece::Expr(e) | Piece::Tail(e) => match &e.kind {
            ExprKind::Call { callee, .. } => match ident_of(callee) {
                Some(name) => is_impure_builtin(name.as_str()) || sema.suspends_or_throws(name),
                None => true,
            },
            ExprKind::MethodCall { .. }
            | ExprKind::SafeMethodCall { .. }
            | ExprKind::Select(_)
            | ExprKind::InlineTrait(_) => true,
            _ => false,
        },
        Piece::Stmt(_) => false,
    }
}

/// Whether a body does something impure itself.
pub fn is_direct_impure(body: &Expr, sema: &SemaResult) -> (r: bool)
    ensures
        r == directly_impure(*sema, *body),
{
    let places = reach(Walk::Inner, Piece::Expr(body));
    let mut i: usize = 0;
    while i < places.len()
        invariant
            i <= places@.len(),
            places@ == reached(Walk::Inner, Piece::Expr(body)),
            forall|k: int| 0 <= k < i ==> !impure_place(*sema, #[trigger] places@[k]),
        decreases places@.len() - i,
    {
        if is_impure_place(sema, places[i]) {
            assert(impure_place(*sema, places@[i as int]));
            return true;
        }
        i = i + 1;
    }
    false
}

/// Whether a function is impure by itself: it may suspend or throw, or its
/// body does something impure.
pub open spec fn impure_itself(sema: SemaResult, meta: FuncMetaRef) -> bool {
    meta.is_async || sema.effectful_fn(meta.name@) || directly_impure(sema, *meta.body)
}

/// The functions that are impure by themselves.
pub open spec fn impure_funcs(sema: SemaResult, metas: Seq<(FuncId, FuncMetaRef)>) -> Seq<u32>
    decreases metas.len(),
{
    if metas.len() == 0 {
        seq![]
    } else if impure_itself(sema, metas.last().1) {
        impure_funcs(sema, metas.drop_last()).push(metas.last().0.0)
    } else {
        impure_funcs(sema, metas.drop_last())
    }
}

/// The functions that are impure: those that are so by themselves, and their
/// callers among the functions of the graph.
pub open spec fn impure_set(cg: CallGraph, sema: SemaResult, m: Module) -> Set<u32> {
    reach_within(cg.reverse@, ids(raw(cg.nodes@)), ids(impure_funcs(sema, cg.metas(m))))
}

/// What the table says of the graph's functions.
pub open spec fn purity_of(cg: CallGraph, sema: SemaResult, m: Module, f: FuncId) -> Option<Purity> {
    if impure_set(cg, sema, m).contains(f.0) {
        Some(Purity::Impure)
    } else if cg.nodes@.contains(f) {
        Some(Purity::Pure)
    } else {
        None
    }
}

fn node_set(cg: &CallGraph) -> (s: IdSet)
    ensures
        s@ == ids(raw(cg.nodes@)),
{
    let mut s = IdSet::new();
    let mut i: usize = 0;
    assert(s@ =~= ids(raw(cg.nodes@.take(0))));
    while i < cg.nodes.len()
        invariant
            i <= cg.nodes@.len(),
            s@ == ids(raw(cg.nodes@.take(i as int))),
        decreases cg.nodes@.len() - i,
    {
        let ghost p = raw(cg.nodes@.take(i as int));
        let ghost q = raw(cg.nodes@.take(i + 1));
        let id = cg.nodes[i].0;
        assert(q =~= p.push(id));
        assert forall|x: u32| q.contains(x) <==> p.contains(x) || x == id by {
            assert(q.last() == id);
            if p.contains(x) {
                let n = choose|n: int| 0 <= n < p.len() && p[n] == x;
                assert(q[n] == x);
            }
        }
        s.insert(id);
        i = i + 1;
        assert(s@ =~= ids(raw(cg.nodes@.take(i as int))));
    }
    assert(cg.nodes@.take(i as int) =~= cg.nodes@);
    s
}

/// The purity of the functions of a call graph.
pub fn analyze_purity(module: &Module, cg: &CallGraph, sema: &SemaResult) -> (table: PurityTable)
    requires
        cg.wf(),
    ensures
        table.wf(),
        forall|f: FuncId| #[trigger] table.of(f) == purity_of(*cg, *sema, *module, f),
{
    let mut table = PurityTable::new();
    let mut i: usize = 0;
    while i < cg.nodes.len()
        invariant
            i <= cg.nodes@.len(),
            table.wf(),
            forall|f: FuncId| #[trigger]
                table.of(f) == (if cg.nodes@.take(i as int).contains(f) {
                    Some(Purity::Pure)
                } else {
                    None
                }),
        decreases cg.nodes@.len() - i,
    {
        let ghost before = table;
        let ghost p = cg.nodes@.take(i as int);
        let ghost q = cg.nodes@.take(i + 1);
        let fid = cg.nodes[i];
        assert(q =~= p.push(fid));
        table.put(fid, Purity::Pure);
        i = i + 1;
        assert forall|f: FuncId| #[trigger]
            table.of(f) == (if cg.nodes@.take(i as int).contains(f) {
                Some(Purity::Pure)
            } else {
                None
            }) by {
            assert(before.of(f) is Some <==> p.contains(f));
            assert(q.last() == fid);
            if p.contains(f) {
                let n = choose|n: int| 0 <= n < p.len() && p[n] == f;
                assert(q[n] == f);
            }
        }
    }
    assert(cg.nodes@.take(i as int) =~= cg.nodes@);
    let metas = cg.iter_funcs(module);
    let mut seeds: Vec<u32> = Vec::new();
    let mut k: usize = 0;
    assert(metas@.take(0) =~= seq![]);
    while k < metas.len()
        invariant
            k <= metas@.len(),
            seeds@ == impure_funcs(*sema, metas@.take(k as int)),
        decreases metas@.len() - k,
    {
        assert(metas@.take(k + 1).drop_last() =~= metas@.take(k as int));
        let (caller, meta) = metas[k];
        if meta.is_async || sema.suspends_or_throws(meta.name) || is_direct_impure(meta.body, sema) {
            seeds.push(caller.0);
        }
        k = k + 1;
    }
    assert(metas@.take(k as int) =~= metas@);
    let keep = node_set(cg);
    let impure = close_within(&cg.reverse, &keep, &seeds);
    let mut j: usize = 0;
    let ghost pure = table;
    while j < impure.found.len()
        invariant
            j <= impure.found@.len(),
            table.wf(),
            forall|f: FuncId| #[trigger]
                table.of(f) == (if impure.found@.take(j as int).contains(f.0) {
                    Some(Purity::Impure)
                } else {
                    pure.of(f)
                }),
        decreases impure.found@.len() - j,
    {
        let ghost before = table;
        let ghost p = impure.found@.take(j as int);
        let ghost q = impure.found@.take(j + 1);
        let id = impure.found[j];
        assert(q =~= p.push(id));
        table.put(FuncId(id), Purity::Impure);
        j = j + 1;
        assert forall|f: FuncId| #[trigger]
            table.of(f) == (if impure.found@.take(j as int).contains(f.0) {
                Some(Purity::Impure)
            } else {
                pure.of(f)
            }) by {
            assert(before.of(f) == (if p.contains(f.0) {
                Some(Purity::Impure)
            } else {
                pure.of(f)
            }));
            assert(q.last() == id);
            if p.contains(f.0) {
                let n = choose|n: int| 0 <= n < p.len() && p[n] == f.0;
                assert(q[n] == f.0);
            }
        }
    }
    assert(impure.found@.take(j as int) =~= impure.found@);
    assert forall|f: FuncId| #[trigger] table.of(f) == purity_of(*cg, *sema, *module, f) by {
        assert(impure.set@.contains(f.0) <==> impure.found@.contains(f.0));
        assert(pure.of(f) == (if cg.nodes@.contains(f) {
            Some(Purity::Pure)
        } else {
            None
        }));
    }
    table
}

/// A function of the graph is pure exactly where no function that it can reach
/// by calls, itself among them, is impure by itself.
pub proof fn law_pure_functions_reach_no_impure_one(cg: CallGraph, sema: SemaResult, m: Module, f: FuncId)
    requires
        cg.wf(),
        cg.nodes@.contains(f),
        forall|a: u32, b: u32| #[trigger] edge(cg.edges@, a, b) ==> cg.nodes@.contains(FuncId(a)),
    ensures
        purity_of(cg, sema, m, f) == Some(Purity::Pure) <==> forall|d: u32|
            impure_funcs(sema, cg.metas(m)).contains(d) ==> !#[trigger] reach_from(cg.edges@, set![f.0]).contains(d),
{
    let seeds = ids(impure_funcs(sema, cg.metas(m)));
    let keep = ids(raw(cg.nodes@));
    let r = cg.reverse@;
    assert forall|a: u32, b: u32| #[trigger] edge(r, a, b) implies keep.contains(b) by {
        assert(edge(cg.edges@, b, a));
        let n = choose|n: int| 0 <= n < cg.nodes@.len() && cg.nodes@[n] == FuncId(b);
        assert(raw(cg.nodes@)[n] == b);
    }
    law_reach_within_all(r, keep, seeds);
    law_reach_from_is_least(r, seeds, set![]);
    if reach_from(r, seeds).contains(f.0) {
        let s = Set::new(|x: u32| exists|d: u32| #[trigger] seeds.contains(d) && reach_from(r, set![d]).contains(x));
        assert(super::closure::closed(r, s)) by {
            assert forall|a: u32, b: u32| s.contains(a) && #[trigger] edge(r, a, b) implies s.contains(b) by {
                let d = choose|d: u32| #[trigger] seeds.contains(d) && reach_from(r, set![d]).contains(a);
                law_reach_from_is_least(r, set![d], set![]);
                assert(reach_from(r, set![d]).contains(b));
            }
        }
        assert(seeds.subset_of(s)) by {
            assert forall|d: u32| seeds.contains(d) implies s.contains(d) by {
                law_reach_from_is_least(r, set![d], set![]);
                assert(set![d].contains(d));
            }
        }
        assert(s.contains(f.0));
        let d = choose|d: u32| #[trigger] seeds.contains(d) && reach_from(r, set![d]).contains(f.0);
        law_converse_turns_ways_round(cg.edges@, r, d, f.0);
        assert(impure_funcs(sema, cg.metas(m)).contains(d));
        assert(reach_from(cg.edges@, set![f.0]).contains(d));
    } else {
        assert forall|d: u32| impure_funcs(sema, cg.metas(m)).contains(d) implies !#[trigger] reach_from(
            cg.edges@,
            set![f.0],
        ).contains(d) by {
            if reach_from(cg.edges@, set![f.0]).contains(d) {
                law_converse_turns_ways_round(cg.edges@, r, d, f.0);
                let all = reach_from(r, seeds);
                law_reach_from_is_least(r, set![d], all);
                assert(seeds.contains(d));
                assert(set![d].subset_of(all));
            }
        }
    }
}

/// What is known of a function of the graph that is impure by itself.
proof fn lemma_seed_is_impure(cg: CallGraph, sema: SemaResult, m: Module, k: int)
    requires
        0 <= k < cg.metas(m).len(),
        impure_itself(sema, cg.metas(m)[k].1),
    ensures
        purity_of(cg, sema, m, cg.metas(m)[k].0) == Some(Purity::Impure),
{
    let metas = cg.metas(m);
    lemma_impure_funcs_hold(sema, metas, k);
    let seeds = ids(impure_funcs(sema, metas));
    law_reach_within_is_least(cg.reverse@, ids(raw(cg.nodes@)), seeds, Set::empty());
    assert(seeds.contains(metas[k].0.0));
}

proof fn lemma_impure_funcs_hold(sema: SemaResult, metas: Seq<(FuncId, FuncMetaRef)>, k: int)
    requires
        0 <= k < metas.len(),
        impure_itself(sema, metas[k].1),
    ensures
        impure_funcs(sema, metas).contains(metas[k].0.0),
    decreases metas.len(),
{
    let f = impure_funcs(sema, metas);
    let g = impure_funcs(sema, metas.drop_last());
    if k < metas.len() - 1 {
        assert(metas.drop_last()[k] == metas[k]);
        lemma_impure_funcs_hold(sema, metas.drop_last(), k);
        let i = choose|i: int| 0 <= i < g.len() && g[i] == metas[k].0.0;
        assert(f[i] == metas[k].0.0);
    } else {
        assert(f.last() == metas[k].0.0);
    }
}

proof fn lemma_impure_funcs_only(sema: SemaResult, metas: Seq<(FuncId, FuncMetaRef)>, f: u32)
    requires
        impure_funcs(sema, metas).contains(f),
    ensures
        exists|k: int| 0 <= k < metas.len() && (#[trigger] metas[k]).0.0 == f && impure_itself(sema, metas[k].1),
    decreases metas.len(),
{
    if metas.len() > 0 {
        let last = metas.last();
        let g = impure_funcs(sema, metas.drop_last());
        let h = impure_funcs(sema, metas);
        let i = choose|i: int| 0 <= i < h.len() && h[i] == f;
        if i < g.len() {
            assert(g[i] == f);
            lemma_impure_funcs_only(sema, metas.drop_last(), f);
            let k = choose|k: int|
                0 <= k < metas.len() - 1 && (#[trigger] metas.drop_last()[k]).0.0 == f && impure_itself(
                    sema,
                    metas.drop_last()[k].1,
                );
            assert(metas[k] == metas.drop_last()[k]);
        } else {
            assert(metas[metas.len() - 1] == last);
        }
    }
}

/// A function in whose body, functions inside it left aside, a method is
/// called, something is selected or a trait is made up is impure.
pub proof fn law_methods_make_impure(cg: CallGraph, sema: SemaResult, m: Module, k: int, e: Expr)
    requires
        0 <= k < cg.metas(m).len(),
        reached(Walk::Inner, Piece::Expr(cg.metas(m)[k].1.body)).contains(Piece::Expr(&e)),
        e.kind is MethodCall || e.kind is SafeMethodCall || e.kind is Select || e.kind is InlineTrait,
    ensures
        purity_of(cg, sema, m, cg.metas(m)[k].0) == Some(Purity::Impure),
{
    let s = reached(Walk::Inner, Piece::Expr(cg.metas(m)[k].1.body));
    let i = choose|i: int| 0 <= i < s.len() && s[i] == Piece::Expr(&e);
    assert(impure_place(sema, s[i]));
    lemma_seed_is_impure(cg, sema, m, k);
}

/// A function that calls what is no name, one of the words of the language that
/// suspend or send, or a function that is known to suspend or throw is impure.
pub proof fn law_impure_calls_make_impure(cg: CallGraph, sema: SemaResult, m: Module, k: int, e: Expr)
    requires
        0 <= k < cg.metas(m).len(),
        reached(Walk::Inner, Piece::Expr(cg.metas(m)[k].1.body)).contains(Piece::Expr(&e)),
        e.kind matches ExprKind::Call { callee, .. } && (callee.kind matches ExprKind::Ident(name) ==> {
            ||| name@ == "async"@
            ||| name@ == "lazy"@
            ||| name@ == "select"@
            ||| name@ == "send"@
            ||| name@ == "recv"@
            ||| sema.sig_of(name@) matches Some(sig) && (sig.is_async || sig.is_throwing)
        }),
    ensures
        purity_of(cg, sema, m, cg.metas(m)[k].0) == Some(Purity::Impure),
{
    let s = reached(Walk::Inner, Piece::Expr(cg.metas(m)[k].1.body));
    let i = choose|i: int| 0 <= i < s.len() && s[i] == Piece::Expr(&e);
    assert(impure_place(sema, s[i]));
    lemma_seed_is_impure(cg, sema, m, k);
}

/// A function that is declared to suspend, or known to suspend or throw, is
/// impure, whatever its body.
pub proof fn law_suspending_functions_are_impure(cg: CallGraph, sema: SemaResult, m: Module, k: int)
    requires
        0 <= k < cg.metas(m).len(),
        cg.metas(m)[k].1.is_async || (sema.sig_of(cg.metas(m)[k].1.name@) matches Some(sig) && (sig.is_async
            || sig.is_throwing)),
    ensures
        purity_of(cg, sema, m, cg.metas(m)[k].0) == Some(Purity::Impure),
{
    lemma_seed_is_impure(cg, sema, m, k);
}

/// Whoever calls an impure function is impure.
pub proof fn law_callers_of_impure_functions_are_impure(cg: CallGraph, sema: SemaResult, m: Module, f: FuncId, g: FuncId)
    requires
        cg.wf(),
        cg.nodes@.contains(f),
        edge(cg.edges@, f.0, g.0),
        purity_of(cg, sema, m, g) == Some(Purity::Impure),
    ensures
        purity_of(cg, sema, m, f) == Some(Purity::Impure),
{
    let n = choose|n: int| 0 <= n < cg.nodes@.len() && cg.nodes@[n] == f;
    assert(raw(cg.nodes@)[n] == f.0);
    assert(edge(cg.reverse@, g.0, f.0));
    let seeds = ids(impure_funcs(sema, cg.metas(m)));
    law_reach_within_is_least(cg.reverse@, ids(raw(cg.nodes@)), seeds, Set::empty());
    assert(ids(raw(cg.nodes@)).contains(f.0));
}

/// A function is taken for impure only where, going along calls, one is met
/// that is declared or known to suspend or throw, or whose body calls a method,
/// selects, makes up a trait, or calls what is no name, is one of the words
/// that suspend or send, or is known to suspend or throw. Where no function
/// does anything of that, all are pure.
pub proof fn law_plain_functions_are_pure(cg: CallGraph, sema: SemaResult, m: Module, f: FuncId)
    requires
        cg.nodes@.contains(f),
        forall|k: int|
            0 <= k < cg.metas(m).len() ==> !(#[trigger] cg.metas(m)[k]).1.is_async && !(sema.sig_of(
                cg.metas(m)[k].1.name@,
            ) matches Some(sig) && (sig.is_async || sig.is_throwing)),
        forall|k: int, i: int| #![trigger reached(Walk::Inner, Piece::Expr(cg.metas(m)[k].1.body))[i]]
            0 <= k < cg.metas(m).len() && 0 <= i < reached(Walk::Inner, Piece::Expr(cg.metas(m)[k].1.body)).len() ==> (
            match reached(Walk::Inner, Piece::Expr(cg.metas(m)[k].1.body))[i] {
                Piece::Expr(e) | Piece::Tail(e) => {
                    &&& !(e.kind is MethodCall) && !(e.kind is SafeMethodCall) && !(e.kind is Select) && !(
                    e.kind is InlineTrait)
                    &&& e.kind matches ExprKind::Call { callee, .. } ==> callee.kind matches ExprKind::Ident(name)
                        && name@ != "async"@ && name@ != "lazy"@ && name@ != "select"@ && name@ != "send"@ && name@
                        != "recv"@ && !(sema.sig_of(name@) matches Some(sig) && (sig.is_async || sig.is_throwing))
                },
                Piece::Stmt(_) => true,
            }),
    ensures
        purity_of(cg, sema, m, f) == Some(Purity::Pure),
{
    let metas = cg.metas(m);
    let seeds = ids(impure_funcs(sema, metas));
    assert forall|k: int| 0 <= k < metas.len() implies !impure_itself(sema, (#[trigger] metas[k]).1) by {
        let s = reached(Walk::Inner, Piece::Expr(metas[k].1.body));
        assert forall|i: int| 0 <= i < s.len() implies !impure_place(sema, #[trigger] s[i]) by {
            assert(reached(Walk::Inner, Piece::Expr(cg.metas(m)[k].1.body))[i] == s[i]);
        }
        assert(!directly_impure(sema, *metas[k].1.body));
    }
    assert(seeds =~= Set::<u32>::empty()) by {
        assert forall|x: u32| !seeds.contains(x) by {
            if seeds.contains(x) {
                lemma_impure_funcs_only(sema, metas, x);
            }
        }
    }
    law_reach_within_is_least(cg.reverse@, ids(raw(cg.nodes@)), seeds, Set::empty());
}

} // verus!
