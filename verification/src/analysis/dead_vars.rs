//! Variables and parameters that nobody reads.

use super::call_graph::CallGraph;
use super::dead_code::DeadCodeReport;
use super::def_use::DefUseGraph;
use super::functions::FuncMetaRef;
use super::lambda_escape::name_at;
use super::tables::{FuncId, VarId};
use crate::ast::tree::{Decl, Expr, ExprKind, Module, StmtKind, NO_STMT};
use crate::ast::walk::{ident_of, reach, reached, Piece, Walk};
use crate::fx::IdSet;
use vstd::prelude::*;

verus! {

/// The definitions that can be left out.
#[derive(Debug)]
pub struct DeadVarReport {
    pub dead_vars: IdSet,
}

impl DeadVarReport {
    pub fn new() -> (r: Self)
        ensures
            r.dead_vars@ == Set::<u32>::empty(),
    {
        DeadVarReport { dead_vars: IdSet::new() }
    }

    pub fn is_dead(&self, v: VarId) -> (r: bool)
        ensures
            r == self.dead_vars@.contains(v.0),
    {
        self.dead_vars.contains(v.0)
    }
}

/// Whether the place is a function inside another one: a local function or an
/// inline trait.
pub open spec fn is_nested(p: Piece) -> bool {
    match p {
        Piece::Expr(e) | Piece::Tail(e) => e.kind is InlineTrait,
        Piece::Stmt(s) => s.kind is LocalDecl,
    }
}

/// Whether the name occurs at the place or below it.
pub open spec fn mentions(p: Piece, name: Seq<char>) -> bool {
    let s = reached(Walk::Full, p);
    exists|i: int| 0 <= i < s.len() && name_at(#[trigger] s[i]) == Some(name)
}

/// Whether a function inside the body refers to the name.
pub open spec fn mentioned_inside(body: Expr, name: Seq<char>) -> bool {
    let s = reached(Walk::Full, Piece::Expr(&body));
    exists|i: int| 0 <= i < s.len() && is_nested(#[trigger] s[i]) && mentions(s[i], name)
}

/// Whether a function inside the function refers to the name.
pub open spec fn read_inside(m: Module, func: FuncId, name: Seq<char>) -> bool {
    func.0 < m.declarations@.len() && match m.declarations@[func.0 as int] {
        Decl::Fun(f) => mentioned_inside(f.body, name),
        _ => false,
    }
}

/// Whether a definition can be left out: a statement makes it, and that
/// statement is left out, or no definition of that name in the function is
/// read, in it or by a function inside it.
pub open spec fn dead_def(m: Module, g: DefUseGraph, dead: Set<u32>, v: int) -> bool {
    let d = g.defs@[v];
    &&& 0 <= v < g.defs@.len()
    &&& d.stmt.0 != NO_STMT
    &&& dead.contains(d.stmt.0) || !(g.name_is_read(d.func, d.name@) || read_inside(m, d.func, d.name@))
}

fn is_mentioned<'a>(p: Piece<'a>, name: &String) -> (r: bool)
    ensures
        r == mentions(p, name@),
{
    let places = reach(Walk::Full, p);
    let mut i: usize = 0;
    while i < places.len()
        invariant
            i <= places@.len(),
            places@ == reached(Walk::Full, p),
            forall|k: int| 0 <= k < i ==> name_at(#[trigger] places@[k]) != Some(name@),
        decreases places@.len() - i,
    {
        if let Piece::Expr(e) | Piece::Tail(e) = places[i] {
            if let Some(n) = ident_of(e) {
                if *n == *name {
                    assert(name_at(places@[i as int]) == Some(name@));
                    return true;
                }
            }
        }
        i = i + 1;
    }
    false
}

fn is_mentioned_inside(body: &Expr, name: &String) -> (r: bool)
    ensures
        r == mentioned_inside(*body, name@),
{
    let places = reach(Walk::Full, Piece::Expr(body));
    let mut i: usize = 0;
    while i < places.len()
        invariant
            i <= places@.len(),
            places@ == reached(Walk::Full, Piece::Expr(body)),
            forall|k: int| 0 <= k < i ==> !(is_nested(#[trigger] places@[k]) && mentions(places@[k], name@)),
        decreases places@.len() - i,
    {
        let nested: bool = match places[i] {
            Piece::Expr(e) | Piece::Tail(e) => matches!(e.kind, ExprKind::InlineTrait(_)),
            Piece::Stmt(s) => matches!(s.kind, StmtKind::LocalDecl { .. }),
        };
        if nested && is_mentioned(places[i], name) {
            assert(is_nested(places@[i as int]));
            return true;
        }
        i = i + 1;
    }
    false
}

fn is_read_inside(module: &Module, func: FuncId, name: &String) -> (r: bool)
    ensures
        r == read_inside(*module, func, name@),
{
    let i: usize = func.0 as usize;
    if i < module.declarations.len() {
        match &module.declarations[i] {
            Decl::Fun(f) => is_mentioned_inside(&f.body, name),
            _ => false,
        }
    } else {
        false
    }
}

/// The definitions that can be left out.
pub fn dead_var_pass(module: &Module, def_use: &DefUseGraph, dead_code: &DeadCodeReport) -> (report: DeadVarReport)
    requires
        def_use.wf(),
    ensures
        forall|v: u32| #[trigger]
            report.dead_vars@.contains(v) <==> dead_def(*module, *def_use, dead_code.dead_stmts@, v as int),
{
    let mut report = DeadVarReport::new();
    let mut i: usize = 0;
    while i < def_use.defs.len()
        invariant
            i <= def_use.defs@.len() <= u32::MAX,
            def_use.wf(),
            forall|v: u32| #[trigger]
                report.dead_vars@.contains(v) <==> v < i && dead_def(*module, *def_use, dead_code.dead_stmts@, v as int),
        decreases def_use.defs@.len() - i,
    {
        let def = &def_use.defs[i];
        let vid = VarId(i as u32);
        if def.stmt.0 != NO_STMT {
            if dead_code.is_dead(def.stmt) {
                report.dead_vars.insert(vid.0);
            } else {
                proof {
                    if def_use.is_read(i as int) {
                        assert(def_use.name_is_read(def.func, def.name@));
                    }
                }
                if def_use.is_never_read(vid) && !def_use.is_name_ever_read(def.func, &def.name) && !is_read_inside(
                    module,
                    def.func,
                    &def.name,
                ) {
                    report.dead_vars.insert(vid.0);
                }
            }
        }
        i = i + 1;
    }
    report
}

/// The parameters that nobody reads.
#[derive(Debug)]
pub struct DeadParamReport {
    pub dead_params: Vec<(FuncId, String)>,
}

/// Whether nobody reads what the function is given for its parameter `k`: no
/// read in it sees the definition that the parameter makes, and no function
/// inside it refers to the name.
pub open spec fn dead_param(g: DefUseGraph, func: FuncId, meta: FuncMetaRef, k: int) -> bool {
    &&& g.live_in@.contains_key(func.0)
    &&& 0 <= k < g.live_in@[func.0]@.len()
    &&& !g.is_read(g.live_in@[func.0]@[k].0 as int)
    &&& !mentioned_inside(*meta.body, meta.params@[k].name@)
}

/// The dead parameters among the first `k` of a function.
pub open spec fn dead_params_of(g: DefUseGraph, func: FuncId, meta: FuncMetaRef, k: int) -> Seq<(FuncId, String)>
    decreases k,
{
    if k <= 0 {
        seq![]
    } else if dead_param(g, func, meta, k - 1) {
        dead_params_of(g, func, meta, k - 1).push((func, meta.params@[k - 1].name))
    } else {
        dead_params_of(g, func, meta, k - 1)
    }
}

/// The dead parameters of the first `n` functions.
pub open spec fn dead_params_upto(g: DefUseGraph, metas: Seq<(FuncId, FuncMetaRef)>, n: int) -> Seq<(FuncId, String)>
    decreases n,
{
    if n <= 0 {
        seq![]
    } else {
        dead_params_upto(g, metas, n - 1) + dead_params_of(
            g,
            metas[n - 1].0,
            metas[n - 1].1,
            metas[n - 1].1.params@.len() as int,
        )
    }
}

/// The parameters that nobody reads.
pub fn dead_param_pass(module: &Module, def_use: &DefUseGraph, cg: &CallGraph) -> (report: DeadParamReport)
    requires
        def_use.wf(),
    ensures
        report.dead_params@ == dead_params_upto(*def_use, cg.metas(*module), cg.metas(*module).len() as int),
{
    let metas = cg.iter_funcs(module);
    let mut out: Vec<(FuncId, String)> = Vec::new();
    let mut i: usize = 0;
    while i < metas.len()
        invariant
            i <= metas@.len(),
            def_use.wf(),
            out@ == dead_params_upto(*def_use, metas@, i as int),
        decreases metas@.len() - i,
    {
        let (func, meta) = metas[i];
        let ghost before = out@;
        let mut k: usize = 0;
        assert(out@ =~= before + dead_params_of(*def_use, func, meta, 0));
        while k < meta.params.len()
            invariant
                k <= meta.params@.len(),
                def_use.wf(),
                out@ == before + dead_params_of(*def_use, func, meta, k as int),
            decreases meta.params@.len() - k,
        {
            let param = &meta.params[k];
            if let Some(entry) = def_use.live_in.get(func.0) {
                if k < entry.len() {
                    assert(entry@[k as int] == def_use.live_in@[func.0]@[k as int]);
                    if def_use.is_never_read(entry[k]) && !is_mentioned_inside(meta.body, &param.name) {
                        out.push((func, param.name.clone()));
                    }
                }
            }
            k = k + 1;
            assert(out@ =~= before + dead_params_of(*def_use, func, meta, k as int));
        }
        i = i + 1;
    }
    DeadParamReport { dead_params: out }
}

/// A definition that somebody reads is left out only together with its
/// statement.
pub proof fn law_read_definitions_stay(m: Module, g: DefUseGraph, dead: Set<u32>, v: int)
    requires
        0 <= v < g.defs@.len(),
        g.is_read(v) || read_inside(m, g.defs@[v].func, g.defs@[v].name@),
        !dead.contains(g.defs@[v].stmt.0),
    ensures
        !dead_def(m, g, dead, v),
{
    if g.is_read(v) {
        assert(g.name_is_read(g.defs@[v].func, g.defs@[v].name@));
    }
}

/// A parameter is reported exactly where no read sees it and no function inside
/// the function names it.
pub proof fn law_unread_parameters_are_reported(g: DefUseGraph, func: FuncId, meta: FuncMetaRef, n: int, k: int)
    requires
        0 <= k < n <= meta.params@.len(),
        g.live_in@.contains_key(func.0),
        k < g.live_in@[func.0]@.len(),
        forall|i: int| 0 <= i < g.uses@.len() ==> (#[trigger] g.uses@[i]).var != g.live_in@[func.0]@[k],
        !mentioned_inside(*meta.body, meta.params@[k].name@),
    ensures
        dead_params_of(g, func, meta, n).contains((func, meta.params@[k].name)),
    decreases n,
{
    let r = dead_params_of(g, func, meta, n - 1);
    let x = (func, meta.params@[k].name);
    if k < n - 1 {
        law_unread_parameters_are_reported(g, func, meta, n - 1, k);
        let i = choose|i: int| 0 <= i < r.len() && r[i] == x;
        assert(r.push((func, meta.params@[n - 1].name))[i] == x);
    } else {
        assert(!g.is_read(g.live_in@[func.0]@[k].0 as int)) by {
            if g.is_read(g.live_in@[func.0]@[k].0 as int) {
                let i = choose|i: int|
                    0 <= i < g.uses@.len() && (#[trigger] g.uses@[i]).var.0 == g.live_in@[func.0]@[k].0 as int;
                assert(g.uses@[i].var == g.live_in@[func.0]@[k]);
            }
        }
        assert(r.push(x)[r.len() as int] == x);
    }
}

/// No parameter that a read sees is reported.
pub proof fn law_read_parameters_stay(g: DefUseGraph, func: FuncId, meta: FuncMetaRef, k: int, i: int)
    requires
        g.live_in@.contains_key(func.0),
        0 <= k < g.live_in@[func.0]@.len(),
        0 <= i < g.uses@.len(),
        g.uses@[i].var == g.live_in@[func.0]@[k],
    ensures
        !dead_param(g, func, meta, k),
{
    assert(g.is_read(g.live_in@[func.0]@[k].0 as int));
}

/// A name inside a local function or an inline trait of a body counts as read.
pub proof fn law_inner_functions_read_names(body: Expr, q: Piece, x: Expr, name: String)
    requires
        reached(Walk::Full, Piece::Expr(&body)).contains(q),
        q matches Piece::Stmt(s) ==> s.kind is LocalDecl,
        q matches Piece::Expr(e) ==> e.kind is InlineTrait,
        !(q is Tail),
        reached(Walk::Full, q).contains(Piece::Expr(&x)),
        x.kind == ExprKind::Ident(name),
    ensures
        mentioned_inside(body, name@),
{
    let s = reached(Walk::Full, Piece::Expr(&body));
    let t = reached(Walk::Full, q);
    let i = choose|i: int| 0 <= i < s.len() && s[i] == q;
    let j = choose|j: int| 0 <= j < t.len() && t[j] == Piece::Expr(&x);
    assert(name_at(t[j]) == Some(name@));
    assert(mentions(q, name@));
    assert(is_nested(s[i]) && mentions(s[i], name@));
}

} // verus!
