use kuzo::analysis::call_graph::{build_call_graph, CallGraph, ReachableReason};
use kuzo::analysis::def_use::{build_def_use, is_numberable};
use kuzo::analysis::effects::{classify_side_effect, combine, is_side_effect_free, SideEffect};
use kuzo::analysis::functions::do_functions_fit;
use kuzo::analysis::inline_plan::{count_expr_nodes, has_defer, has_nested_function, has_propagate, has_return};
use kuzo::analysis::invariants::collect_modified_vars;
use kuzo::analysis::lambda_escape::{collect_free_idents, collect_free_idents_expr, find_escaping_lambdas};
use kuzo::analysis::memo_plan::{MemoCapacity, MemoStrategy};
use kuzo::analysis::purity::{is_impure_builtin, ImpureBuiltinFn};
use kuzo::analysis::recursion::{
    extract_non_tail_rec_info, extract_tail_rec_info, has_non_tail_self_call, has_tail_call, is_tail_recursive,
};
use kuzo::analysis::report::{analyze, AnalysisReport};
use kuzo::analysis::scc::find_groups;
use kuzo::analysis::tables::{EscapeInfo, EscapeKind, FuncId, Purity, VarId};
use kuzo::ast::sema::{ExprEntry, ExprInfo, FuncSig, SemaResult, TypeDef, TypeDefKind, Witness};
use kuzo::ast::tree::{
    Attribute, Decl, Expr, ExprId, ExprKind, FieldInit, FunDecl, InterpolationPart, MatchArm, Method, Module, Param,
    Pattern, SelectArm, Stmt, StmtId, StmtKind, TypeDecl, Visibility,
};
use kuzo::ast::walk::Piece;
use std::cell::Cell;

/// Numbers expressions and statements as they are made.
struct Make {
    exprs: Cell<u32>,
    stmts: Cell<u32>,
}

impl Make {
    fn new() -> Self {
        Make { exprs: Cell::new(0), stmts: Cell::new(0) }
    }

    fn e(&self, kind: ExprKind) -> Expr {
        let id = self.exprs.get();
        self.exprs.set(id + 1);
        Expr { id: ExprId(id), kind }
    }

    fn s(&self, kind: StmtKind) -> Stmt {
        let id = self.stmts.get();
        self.stmts.set(id + 1);
        Stmt { id: StmtId(id), kind }
    }

    fn id(&self, name: &str) -> Expr {
        self.e(ExprKind::Ident(name.to_string()))
    }

    fn lit(&self) -> Expr {
        self.e(ExprKind::IntLit)
    }

    fn call(&self, name: &str, args: Vec<Expr>) -> Expr {
        let callee = Box::new(self.id(name));
        self.e(ExprKind::Call { callee, args })
    }

    fn add(&self, a: Expr, b: Expr) -> Expr {
        self.e(ExprKind::Binary { lhs: Box::new(a), rhs: Box::new(b) })
    }

    fn block(&self, stmts: Vec<Stmt>, trailing: Option<Expr>) -> Expr {
        self.e(ExprKind::Block { stmts, trailing: trailing.map(Box::new) })
    }

    fn if_else(&self, c: Expr, a: Expr, b: Expr) -> Expr {
        self.e(ExprKind::If { cond: Box::new(c), then_branch: Box::new(a), else_branch: Some(Box::new(b)) })
    }

    fn lambda(&self, params: &[&str], body: Expr) -> Expr {
        self.e(ExprKind::Lambda { params: names(params), body: Box::new(body) })
    }

    fn array(&self, elements: Vec<Expr>) -> Expr {
        self.e(ExprKind::ArrayLit { elements, fill: None })
    }

    fn val(&self, name: &str, value: Expr) -> Stmt {
        self.s(StmtKind::ValDecl { name: name.to_string(), value })
    }

    fn var(&self, name: &str, value: Expr) -> Stmt {
        self.s(StmtKind::VarDecl { name: name.to_string(), value })
    }

    fn set(&self, name: &str, value: Expr) -> Stmt {
        let target = self.id(name);
        self.s(StmtKind::Assignment { target, value })
    }
}

fn names(params: &[&str]) -> Vec<Param> {
    params.iter().map(|p| Param { name: p.to_string() }).collect()
}

fn decl(name: &str, params: &[&str], body: Expr) -> FunDecl {
    FunDecl {
        name: name.to_string(),
        params: names(params),
        body,
        is_async: false,
        visibility: Visibility::Private,
        is_entry: false,
        attributes: Vec::new(),
        has_extern_c_body: false,
    }
}

fn fun(name: &str, params: &[&str], body: Expr) -> Decl {
    Decl::Fun(decl(name, params, body))
}

fn entry(name: &str, body: Expr) -> Decl {
    let mut f = decl(name, &[], body);
    f.is_entry = true;
    Decl::Fun(f)
}

fn module(declarations: Vec<Decl>) -> Module {
    Module { name: "m".to_string(), declarations }
}

fn sema() -> SemaResult {
    SemaResult { expr_types: Vec::new(), func_sigs: Vec::new(), type_defs: Vec::new(), witnesses: Vec::new() }
}

fn typed(expr: ExprId, name: &str) -> ExprEntry {
    ExprEntry {
        module: "m".to_string(),
        expr,
        info: ExprInfo { type_of: Some(name.to_string()), const_bool: None },
    }
}

fn effect(report: &AnalysisReport, m: &Module, sema: &SemaResult, e: &Expr) -> SideEffect {
    classify_side_effect(e, &m.name, sema, &report.purity, &report.escape, &report.call_graph.name_to_func)
}

#[test]
fn side_effects_of_expressions() {
    let k = Make::new();
    let m = module(vec![
        fun("pure", &["x"], k.add(k.id("x"), k.lit())),
        fun("noisy", &[], k.call("send", vec![k.lit()])),
    ]);
    let s = sema();
    let r = analyze(&m, &s);
    assert_eq!(effect(&r, &m, &s, &k.lit()), SideEffect::Pure);
    assert_eq!(effect(&r, &m, &s, &k.call("pure", vec![k.lit()])), SideEffect::Pure);
    assert_eq!(effect(&r, &m, &s, &k.call("noisy", vec![])), SideEffect::Impure);
    assert_eq!(effect(&r, &m, &s, &k.call("unknown", vec![])), SideEffect::Impure);
    let nested = k.call("pure", vec![k.call("noisy", vec![])]);
    assert_eq!(effect(&r, &m, &s, &nested), SideEffect::Impure);
    assert_eq!(effect(&r, &m, &s, &k.lambda(&[], k.lit())), SideEffect::Impure);
    assert_eq!(combine(SideEffect::Pure, SideEffect::AllocNoEscape), SideEffect::AllocNoEscape);
    assert_eq!(combine(SideEffect::AllocNoEscape, SideEffect::Impure), SideEffect::Impure);
    assert!(is_side_effect_free(SideEffect::AllocNoEscape));
    assert!(!is_side_effect_free(SideEffect::Impure));
}

#[test]
fn throwing_functions_are_impure() {
    let k = Make::new();
    let m = module(vec![fun("f", &[], k.lit()), fun("g", &[], k.call("f", vec![]))]);
    let mut s = sema();
    s.func_sigs.push(FuncSig { name: "f".to_string(), is_async: false, is_throwing: true });
    let r = analyze(&m, &s);
    assert_eq!(r.purity.lookup(FuncId(0)), Some(Purity::Impure));
    assert_eq!(r.purity.lookup(FuncId(1)), Some(Purity::Impure));
    assert_eq!(r.purity.lookup(FuncId(9)), None);
}

#[test]
fn impurity_spreads_to_callers() {
    let k = Make::new();
    let m = module(vec![
        fun("a", &[], k.call("b", vec![])),
        fun("b", &[], k.call("recv", vec![])),
        fun("c", &[], k.lit()),
    ]);
    let r = analyze(&m, &sema());
    assert!(!r.purity.is_pure(FuncId(0)));
    assert!(!r.purity.is_pure(FuncId(1)));
    assert!(r.purity.is_pure(FuncId(2)));
    assert_eq!(ImpureBuiltinFn::from_name("recv"), Some(ImpureBuiltinFn::Recv));
    assert_eq!(ImpureBuiltinFn::from_name("async"), Some(ImpureBuiltinFn::Async));
    assert!(is_impure_builtin("select") && is_impure_builtin("lazy") && !is_impure_builtin("print"));
}

#[test]
fn definitions_and_uses() {
    let k = Make::new();
    // fun f(p) { var x = p; x = x + 1; x }
    let body = k.block(
        vec![k.var("x", k.id("p")), k.set("x", k.add(k.id("x"), k.lit()))],
        Some(k.id("x")),
    );
    let m = module(vec![fun("f", &["p"], body)]);
    assert!(is_numberable(&m));
    let g = build_def_use(&m);
    assert_eq!(g.defs.len(), 3);
    assert_eq!(g.uses.len(), 3);
    assert_eq!((g.uses[0].var, g.uses[1].var, g.uses[2].var), (VarId(0), VarId(1), VarId(2)));
    assert_eq!(g.lookup(FuncId(0), &"x".to_string()), Some(VarId(2)));
    assert_eq!(g.lookup(FuncId(1), &"x".to_string()), None);
    assert!(!g.is_never_read(VarId(0)));
    assert!(g.is_name_ever_read(FuncId(0), &"x".to_string()));
    assert_eq!(g.live_in.get(0).map(|v| v.len()), Some(1));
    assert!(g.defs[1].is_mutable && !g.defs[0].is_mutable);
}

#[test]
fn module_variables_are_not_defined_anew() {
    let k = Make::new();
    let global = Decl::Expr { stmt: Some(k.var("total", k.lit())) };
    let m = module(vec![global, fun("f", &[], k.block(vec![k.set("total", k.lit())], None))]);
    let g = build_def_use(&m);
    assert!(g.global_vars.contains("total"));
    assert_eq!(g.defs.len(), 0);
}

fn graph_of(m: &Module, s: &SemaResult) -> CallGraph {
    assert!(do_functions_fit(m));
    build_call_graph(m, s)
}

#[test]
fn calls_and_recursion() {
    let k = Make::new();
    let m = module(vec![
        fun("even", &["n"], k.call("odd", vec![k.id("n")])),
        fun("odd", &["n"], k.call("even", vec![k.id("n")])),
        fun("fact", &["n"], k.call("fact", vec![k.id("n")])),
        fun("plain", &[], k.add(k.call("even", vec![]), k.call("even", vec![]))),
    ]);
    let cg = graph_of(&m, &sema());
    assert!(cg.recursive.contains(0) && cg.recursive.contains(1) && cg.recursive.contains(2));
    assert!(!cg.recursive.contains(3));
    assert_eq!(cg.mutually_recursive.len(), 1);
    assert_eq!(cg.mutually_recursive[0].len(), 2);
    assert_eq!(cg.edges.get(3), Some(&vec![FuncId(0)]));
    assert_eq!(cg.reverse.get(0), Some(&vec![FuncId(1), FuncId(3)]));
    assert_eq!(cg.name_to_func.get("fact"), Some(2));
    assert_eq!(cg.iter_funcs(&m).len(), 4);
    assert!(!cg.is_method(FuncId(0)));
}

#[test]
fn methods_have_full_names() {
    let k = Make::new();
    let recv = k.id("p");
    let recv_id = recv.id;
    let caller = k.e(ExprKind::MethodCall { recv: Box::new(recv), method: "len".to_string(), args: vec![] });
    let ty = Decl::Type(TypeDecl {
        name: "Point".to_string(),
        visibility: Visibility::Private,
        methods: vec![
            Method {
                name: "shape".to_string(),
                params: vec![],
                body: None,
                is_async: false,
                visibility: Visibility::Private,
            },
            Method {
                name: "len".to_string(),
                params: vec![],
                body: Some(k.lit()),
                is_async: false,
                visibility: Visibility::Private,
            },
        ],
    });
    let m = module(vec![ty, fun("f", &["p"], caller)]);
    let mut s = sema();
    s.expr_types.push(typed(recv_id, "Point"));
    let cg = graph_of(&m, &s);
    // The method follows behind the two declarations.
    assert_eq!(cg.name_to_func.get("Point.len"), Some(2));
    assert!(cg.is_method(FuncId(2)));
    assert_eq!(cg.edges.get(1), Some(&vec![FuncId(2)]));
    let meta = cg.get_func_meta(FuncId(2), &m).unwrap();
    assert_eq!((meta.name.as_str(), meta.self_type.map(|t| t.as_str())), ("len", Some("Point")));
    assert_eq!(cg.entry_reasons.get(2), Some(&ReachableReason::TypeMethod));
    s.type_defs.push(TypeDef {
        name: "Point".to_string(),
        kind: TypeDefKind::Record,
        methods: vec![],
        constructors: vec![],
    });
    s.witnesses.push(Witness { implementor: "Point".to_string(), method_slots: vec!["len".to_string()] });
    let cg = graph_of(&m, &s);
    assert_eq!(cg.entry_reasons.get(2), Some(&ReachableReason::TraitMethod));
}

#[test]
fn reasons_to_keep_a_function() {
    let k = Make::new();
    let mut c = decl("c", &[], k.lit());
    c.has_extern_c_body = true;
    let mut x = decl("x", &[], k.lit());
    x.attributes.push(Attribute { name: "extern".to_string() });
    let mut p = decl("p", &[], k.lit());
    p.visibility = Visibility::Public;
    let m = module(vec![
        entry("main", k.call("used", vec![])),
        Decl::Fun(c),
        Decl::Fun(x),
        Decl::Fun(p),
        fun("used", &[], k.lit()),
        fun("unused", &[], k.lit()),
    ]);
    let r = analyze(&m, &sema());
    let why = |f: u32| r.dead_func.reachable_reasons.get(f).copied();
    assert_eq!(why(0), Some(ReachableReason::Entry));
    assert_eq!(why(1), Some(ReachableReason::ExternC));
    assert_eq!(why(2), Some(ReachableReason::ExternAttr));
    assert_eq!(why(3), Some(ReachableReason::Public));
    assert_eq!(why(4), Some(ReachableReason::CalledBy(FuncId(0))));
    assert_eq!(why(5), None);
    assert!(r.dead_func.is_dead(FuncId(5)) && !r.dead_func.is_dead(FuncId(4)));
    assert!(ReachableReason::Entry.is_definite() && !ReachableReason::Public.is_definite());
    assert!(ReachableReason::Public.is_conservative() && !ReachableReason::MemoDependency.is_conservative());
}

#[test]
fn allocations_that_leave() {
    let k = Make::new();
    let kept = k.array(vec![k.lit()]);
    let kept_id = kept.id;
    let returned = k.array(vec![]);
    let returned_id = returned.id;
    let ret = k.s(StmtKind::Return { value: Some(returned) });
    let body = k.block(vec![k.val("a", kept), ret], None);
    let m = module(vec![fun("f", &[], body)]);
    let r = analyze(&m, &sema());
    assert_eq!(r.escape.lookup(kept_id), Some(EscapeInfo::NoEscape));
    assert_eq!(r.escape.lookup(returned_id), Some(EscapeInfo::Escapes(EscapeKind::Alloc)));
    assert!(r.escape.is_no_escape(kept_id));
    assert_eq!(r.stack_alloc.candidates, vec![kept_id]);
}

#[test]
fn lambdas_that_leave() {
    let k = Make::new();
    let inner = k.lambda(&["y"], k.id("y"));
    let inner_id = inner.id;
    let tail = k.id("g");
    let body = k.block(vec![k.val("g", inner)], Some(tail));
    assert_eq!(find_escaping_lambdas(&body), vec![inner_id]);
    let m = module(vec![fun("f", &[], body)]);
    let r = analyze(&m, &sema());
    assert_eq!(
        r.escape.lookup(inner_id),
        Some(EscapeInfo::Escapes(EscapeKind::Lambda { loop_body_capture: false }))
    );
}

#[test]
fn lambdas_that_capture_loop_variables() {
    let k = Make::new();
    let lam = k.lambda(&["y"], k.add(k.id("x"), k.id("y")));
    let lam_id = lam.id;
    let free = k.lambda(&["x"], k.id("x"));
    let free_id = free.id;
    let body = k.block(vec![k.val("x", k.lit()), k.val("h", lam), k.val("i", free)], None);
    let cond = k.e(ExprKind::BoolLit(true));
    let outer = k.block(vec![k.s(StmtKind::While { condition: cond, body })], None);
    let m = module(vec![fun("f", &[], outer)]);
    let r = analyze(&m, &sema());
    assert_eq!(
        r.escape.lookup(lam_id),
        Some(EscapeInfo::Escapes(EscapeKind::Lambda { loop_body_capture: true }))
    );
    assert_eq!(r.escape.lookup(free_id), None);
    let e = k.add(k.id("b"), k.add(k.id("a"), k.id("b")));
    assert_eq!(collect_free_idents(&e), vec!["b".to_string(), "a".to_string()]);
}

#[test]
fn dead_statements() {
    let k = Make::new();
    let used = k.val("a", k.lit());
    let chained = k.val("b", k.lit());
    let chained_id = chained.id;
    let unused = k.val("c", k.id("b"));
    let unused_id = unused.id;
    let noisy = k.val("d", k.call("send", vec![]));
    let noisy_id = noisy.id;
    let used_id = used.id;
    let body = k.block(vec![used, chained, unused, noisy], Some(k.id("a")));
    let m = module(vec![fun("f", &[], body)]);
    let r = analyze(&m, &sema());
    assert!(r.dead_code.is_dead(unused_id));
    // Only a dead statement reads it.
    assert!(r.dead_code.is_dead(chained_id));
    assert!(!r.dead_code.is_dead(noisy_id));
    assert!(!r.dead_code.is_dead(used_id));
}

#[test]
fn code_behind_a_return() {
    let k = Make::new();
    let ret = k.s(StmtKind::Return { value: None });
    let after = k.s(StmtKind::Expression { expr: k.call("send", vec![]) });
    let (ret_id, after_id) = (ret.id, after.id);
    let m = module(vec![fun("f", &[], k.block(vec![ret, after], None))]);
    let r = analyze(&m, &sema());
    assert!(r.dead_code.is_dead(after_id));
    assert!(!r.dead_code.is_dead(ret_id));
}

#[test]
fn branches_that_are_never_taken() {
    let k = Make::new();
    let dead = k.s(StmtKind::Expression { expr: k.call("send", vec![]) });
    let live = k.s(StmtKind::Expression { expr: k.call("send", vec![]) });
    let (dead_id, live_id) = (dead.id, live.id);
    let body = k.if_else(
        k.e(ExprKind::BoolLit(false)),
        k.block(vec![dead], None),
        k.block(vec![live], None),
    );
    let m = module(vec![fun("f", &[], body)]);
    let r = analyze(&m, &sema());
    assert!(r.dead_code.is_dead(dead_id));
    assert!(!r.dead_code.is_dead(live_id));
}

#[test]
fn dead_variables_and_parameters() {
    let k = Make::new();
    let body = k.block(vec![k.var("x", k.call("send", vec![]))], Some(k.id("q")));
    let m = module(vec![fun("f", &["p", "q"], body)]);
    let r = analyze(&m, &sema());
    assert_eq!(r.dead_param.dead_params, vec![(FuncId(0), "p".to_string())]);
    assert!(r.dead_var.is_dead(VarId(2)));
    assert!(!r.dead_var.is_dead(VarId(0)));
}

fn tail_fun(k: &Make) -> Expr {
    // if n { acc } else { loop(n, acc) }
    k.if_else(k.id("n"), k.id("acc"), k.call("loop", vec![k.id("n"), k.id("acc")]))
}

#[test]
fn tail_recursion_becomes_a_loop() {
    let k = Make::new();
    let body = tail_fun(&k);
    let name = "loop".to_string();
    assert!(is_tail_recursive(&body, &name));
    let info = extract_tail_rec_info(&body, &name);
    assert!(info.is_valid());
    assert_eq!((info.base_cases.len(), info.rec_branches.len()), (1, 1));
    assert_eq!(info.base_cases[0].cond, Some(ExprId(0)));
    assert_eq!(info.rec_branches[0].cond, None);
    assert_eq!(info.rec_branches[0].args.len(), 2);
    let m = module(vec![fun("loop", &["n", "acc"], body)]);
    let r = analyze(&m, &sema());
    assert!(matches!(r.memo.candidates[0].strategy, MemoStrategy::TailRecToLoop { .. }));
}

#[test]
fn inner_recursion_gets_a_stack_or_a_cache() {
    let k = Make::new();
    let one = k.if_else(k.id("n"), k.lit(), k.add(k.lit(), k.call("f", vec![k.id("n")])));
    let info = extract_non_tail_rec_info(&one, &"f".to_string(), 1);
    assert!(info.is_valid());
    assert_eq!((info.call_sites.len(), info.base_cases.len(), info.param_count), (1, 1, 1));
    let two = k.if_else(
        k.id("n"),
        k.lit(),
        k.add(k.call("g", vec![k.id("n")]), k.call("g", vec![k.id("n")])),
    );
    let m = module(vec![fun("f", &["n"], one), fun("g", &["n", "m"], two)]);
    let r = analyze(&m, &sema());
    assert!(matches!(r.memo.candidates[0].strategy, MemoStrategy::NonTailRecToLoop { .. }));
    match &r.memo.candidates[1].strategy {
        MemoStrategy::Memoize { cache_key, capacity } => {
            assert_eq!(cache_key.param_indices, vec![0, 1]);
            assert_eq!(*capacity, MemoCapacity::Unlimited);
        }
        _ => panic!("two calls are remembered"),
    }
}

#[test]
fn loop_invariants_are_hoisted() {
    let k = Make::new();
    let same = k.add(k.id("a"), k.lit());
    let same_id = same.id;
    let changing = k.add(k.id("i"), k.lit());
    let body = k.block(vec![k.set("i", changing), k.set("s", same)], None);
    let cond = k.id("i");
    let outer = k.block(
        vec![k.var("i", k.lit()), k.var("s", k.lit()), k.s(StmtKind::While { condition: cond, body })],
        Some(k.id("s")),
    );
    let m = module(vec![fun("f", &["a"], outer)]);
    let r = analyze(&m, &sema());
    match &r.memo.candidates[0].strategy {
        MemoStrategy::LoopInvariantHoist { invariants } => assert_eq!(*invariants, vec![same_id]),
        _ => panic!("a loop without recursion is hoisted from"),
    }
}

#[test]
fn small_pure_functions_are_expanded() {
    let k = Make::new();
    let site = k.call("inc", vec![k.lit()]);
    let site_id = site.id;
    let m = module(vec![
        fun("inc", &["x"], k.add(k.id("x"), k.lit())),
        fun("user", &[], site),
        fun("early", &[], k.block(vec![k.s(StmtKind::Return { value: None })], None)),
    ]);
    let r = analyze(&m, &sema());
    assert!(r.inline.candidates.contains(&(FuncId(0), 3)));
    assert!(!r.inline.candidates.iter().any(|c| c.0 == FuncId(2)));
    assert_eq!(r.inline.expansions.get(site_id.0), Some(&FuncId(0)));
}

#[test]
fn features_of_bodies() {
    let k = Make::new();
    let nested = k.block(vec![k.val("f", k.lambda(&[], k.lit()))], None);
    assert!(has_nested_function(&nested));
    let q = k.e(ExprKind::Propagate(Box::new(k.lit())));
    assert!(has_propagate(&q));
    let deferred = k.block(
        vec![k.s(StmtKind::Defer { expr: k.e(ExprKind::Propagate(Box::new(k.lit()))) })],
        None,
    );
    assert!(has_defer(&deferred));
    // What is deferred does not pass an error on from the function.
    assert!(!has_propagate(&deferred));
    let ret = k.block(vec![k.s(StmtKind::Return { value: None })], None);
    assert!(has_return(&ret) && !has_return(&deferred));
    assert_eq!(count_expr_nodes(&k.add(k.lit(), k.lit())), 3);
    assert_eq!(count_expr_nodes(&ret), 2);
}

fn arm(k: &Make, pattern: Pattern, guard: Option<Expr>) -> MatchArm {
    MatchArm { pattern, guard, body: k.lit() }
}

fn ctor(name: &str) -> Pattern {
    Pattern::Constructor { name: name.to_string(), patterns: vec![] }
}

#[test]
fn matches_are_checked() {
    let k = Make::new();
    let scrutinee = k.id("s");
    let scrutinee_id = scrutinee.id;
    let partial = k.e(ExprKind::Match {
        scrutinee: Box::new(scrutinee),
        arms: vec![arm(&k, ctor("Circle"), None)],
    });
    let partial_id = partial.id;
    let late = k.e(ExprKind::Match {
        scrutinee: Box::new(k.id("t")),
        arms: vec![
            arm(&k, Pattern::Wildcard, Some(k.id("c"))),
            arm(&k, Pattern::Wildcard, None),
            arm(&k, ctor("Rect"), None),
            arm(&k, ctor("Circle"), Some(k.id("c"))),
        ],
    });
    let late_id = late.id;
    let m = module(vec![fun("f", &["s", "t", "c"], k.add(partial, late))]);
    let mut s = sema();
    s.expr_types.push(typed(scrutinee_id, "Shape"));
    s.type_defs.push(TypeDef {
        name: "Shape".to_string(),
        kind: TypeDefKind::Adt,
        methods: vec![],
        constructors: vec!["Circle".to_string(), "Rect".to_string()],
    });
    let r = analyze(&m, &s);
    assert_eq!(r.match_report.non_exhaustive.len(), 1);
    let report = &r.match_report.non_exhaustive[0];
    assert_eq!((report.match_expr, report.type_of.as_str()), (partial_id, "Shape"));
    assert_eq!(report.missing, vec!["Rect".to_string()]);
    // Nothing gets past the arm that takes everything, guarded or not.
    let arms: Vec<usize> = r.match_report.unreachable_arms.iter().map(|a| a.arm).collect();
    assert_eq!(arms, vec![2, 3]);
    assert!(r.match_report.unreachable_arms.iter().all(|a| a.match_expr == late_id));
}

#[test]
fn record_updates_hand_their_base_out() {
    let k = Make::new();
    let base = k.e(ExprKind::RecordLit(vec![FieldInit { name: "x".to_string(), value: k.lit() }]));
    let base_id = base.id;
    let ext = k.e(ExprKind::RecordExtend { base: Box::new(base), updates: vec![] });
    let ext_id = ext.id;
    let m = module(vec![fun("f", &[], k.block(vec![k.val("r", ext)], None))]);
    let r = analyze(&m, &sema());
    assert_eq!(r.escape.lookup(base_id), Some(EscapeInfo::Escapes(EscapeKind::Alloc)));
    assert_eq!(r.escape.lookup(ext_id), Some(EscapeInfo::NoEscape));
}

#[test]
fn calls_in_the_arguments_of_a_tail_call_are_found() {
    let k = Make::new();
    let name = "ack".to_string();
    // ack(m - 1, ack(m, n - 1))
    let inner = k.call("ack", vec![k.id("m"), k.add(k.id("n"), k.lit())]);
    let inner_id = inner.id;
    let body = k.call("ack", vec![k.add(k.id("m"), k.lit()), inner]);
    assert!(has_tail_call(&body, &name));
    assert!(has_non_tail_self_call(&body, &name));
    assert!(!is_tail_recursive(&body, &name));
    let info = extract_non_tail_rec_info(&body, &name, 2);
    assert_eq!(info.call_sites, vec![inner_id]);
    assert!(info.base_cases.is_empty());
    assert_eq!(info.continuation_expr, body.id);
}

#[test]
fn inner_calls_are_found_everywhere() {
    let k = Make::new();
    let name = "f".to_string();
    let me = || k.call("f", vec![k.id("n")]);
    let text = k.e(ExprKind::StrInterp(vec![InterpolationPart::Text("a".to_string()), InterpolationPart::Expression(me())]));
    let slice = k.e(ExprKind::Slice { recv: Box::new(k.id("s")), start: Box::new(me()), end: Box::new(k.lit()) });
    let safe = k.e(ExprKind::SafeMethodCall { recv: Box::new(k.id("s")), method: "m".to_string(), args: vec![me()] });
    let guard = k.e(ExprKind::Match {
        scrutinee: Box::new(k.id("n")),
        arms: vec![MatchArm { pattern: Pattern::Wildcard, guard: Some(me()), body: k.lit() }],
    });
    let condition = k.e(ExprKind::Match {
        scrutinee: Box::new(k.id("n")),
        arms: vec![MatchArm {
            pattern: Pattern::Guard { pattern: Box::new(Pattern::Wildcard), condition: Box::new(me()) },
            guard: None,
            body: k.lit(),
        }],
    });
    let select = k.e(ExprKind::Select(vec![SelectArm::Timeout { duration: k.lit(), body: me() }]));
    let in_while = k.block(vec![k.s(StmtKind::While { condition: k.id("n"), body: me() })], None);
    let in_for = k.block(
        vec![k.s(StmtKind::For { name: "i".to_string(), iterable: me(), body: k.lit() })],
        None,
    );
    let in_loop = k.block(vec![k.s(StmtKind::Loop { body: me() })], None);
    let deferred = k.block(vec![k.s(StmtKind::Defer { expr: me() })], None);
    let thrown = k.block(vec![k.s(StmtKind::Throw { expr: me() })], None);
    let bodies =
        [text, slice, safe, guard, condition, select, in_while, in_for, in_loop, deferred, thrown];
    for body in bodies.iter() {
        assert!(has_non_tail_self_call(body, &name));
        assert_eq!(extract_non_tail_rec_info(body, &name, 1).call_sites.len(), 1);
    }
    assert!(!has_non_tail_self_call(&k.block(vec![], Some(me())), &name));
}

#[test]
fn values_that_end_the_recursion() {
    let k = Make::new();
    let name = "f".to_string();
    let list = k.array(vec![k.lit()]);
    let sum = k.add(k.id("n"), k.lit());
    let (list_id, sum_id) = (list.id, sum.id);
    let again = k.call("f", vec![k.id("n")]);
    let inner = k.add(k.lit(), k.call("f", vec![k.id("n")]));
    let body = k.if_else(k.id("a"), list, k.if_else(k.id("b"), sum, k.if_else(k.id("c"), again, inner)));
    let info = extract_non_tail_rec_info(&body, &name, 1);
    let values: Vec<ExprId> = info.base_cases.iter().map(|b| b.value).collect();
    assert_eq!(values, vec![list_id, sum_id]);
    assert!(info.base_cases.iter().all(|b| b.cond.is_none()));
}

fn escapes(r: &AnalysisReport, e: ExprId) -> bool {
    r.escape.lookup(e) == Some(EscapeInfo::Escapes(EscapeKind::Alloc))
}

#[test]
fn values_and_arguments_leave() {
    let k = Make::new();
    let value = k.array(vec![]);
    let method_arg = k.array(vec![]);
    let unknown_arg = k.array(vec![]);
    let pure_arg = k.array(vec![]);
    let ids = [value.id, method_arg.id, unknown_arg.id, pure_arg.id];
    let call = k.e(ExprKind::MethodCall { recv: Box::new(k.id("p")), method: "put".to_string(), args: vec![method_arg] });
    let body = k.block(
        vec![
            k.s(StmtKind::Expression { expr: call }),
            k.s(StmtKind::Expression { expr: k.call("elsewhere", vec![unknown_arg]) }),
            k.s(StmtKind::Expression { expr: k.call("pure", vec![pure_arg]) }),
        ],
        Some(value),
    );
    let m = module(vec![fun("f", &["p"], body), fun("pure", &["x"], k.lit())]);
    let r = analyze(&m, &sema());
    assert!(escapes(&r, ids[0]) && escapes(&r, ids[1]) && escapes(&r, ids[2]));
    assert!(r.escape.is_no_escape(ids[3]));
}

#[test]
fn variables_take_their_values_along() {
    let k = Make::new();
    let index = |name: &str| k.e(ExprKind::Index { recv: Box::new(k.id(name)), index: Box::new(k.lit()) });
    // fun f() { val a = [1]; val b = a; b }
    let direct = k.array(vec![k.lit()]);
    // fun g() { val a = [1]; a[0] }
    let read = k.array(vec![k.lit()]);
    // fun h() { val a = [[1]]; a[0] }
    let inner = k.array(vec![k.lit()]);
    let inner_id = inner.id;
    let outer = k.array(vec![inner]);
    // fun i() { shared = [1] }
    let stored = k.array(vec![]);
    let (direct_id, read_id, outer_id, stored_id) = (direct.id, read.id, outer.id, stored.id);
    let f = k.block(vec![k.val("a", direct), k.val("b", k.id("a"))], Some(k.id("b")));
    let g = k.block(vec![k.val("a", read)], Some(index("a")));
    let h = k.block(vec![k.val("a", outer)], Some(index("a")));
    let i = k.block(vec![k.set("shared", stored)], None);
    let shared = Decl::Expr { stmt: Some(k.var("shared", k.lit())) };
    let m = module(vec![fun("f", &[], f), fun("g", &[], g), fun("h", &[], h), fun("i", &[], i), shared]);
    let r = analyze(&m, &sema());
    assert!(escapes(&r, direct_id));
    assert!(r.escape.is_no_escape(read_id));
    assert!(escapes(&r, inner_id) && r.escape.is_no_escape(outer_id));
    assert!(escapes(&r, stored_id));
}

#[test]
fn lambdas_hand_out_what_they_refer_to() {
    let k = Make::new();
    let list = k.array(vec![]);
    let list_id = list.id;
    let lambda = k.lambda(&[], k.block(vec![k.s(StmtKind::Expression { expr: k.id("a") })], Some(k.lit())));
    let m = module(vec![fun("f", &[], k.block(vec![k.val("a", list), k.val("g", lambda)], None))]);
    let r = analyze(&m, &sema());
    assert!(escapes(&r, list_id));
}

#[test]
fn what_a_loop_defines_is_not_steady() {
    let k = Make::new();
    let sum = |name: &str| k.add(k.id(name), k.lit());
    let use_it = |e: Expr| k.s(StmtKind::Expression { expr: e });
    let steady = sum("p");
    let steady_id = steady.id;
    let item = k.e(ExprKind::Index { recv: Box::new(k.id("xs")), index: Box::new(k.lit()) });
    let store = k.s(StmtKind::Assignment { target: item, value: k.lit() });
    let matched = k.e(ExprKind::Match {
        scrutinee: Box::new(k.id("p")),
        arms: vec![MatchArm { pattern: Pattern::Variable { name: "v".to_string() }, guard: None, body: k.lit() }],
    });
    let inner = k.s(StmtKind::For { name: "j".to_string(), iterable: k.id("p"), body: k.lit() });
    let body = k.block(
        vec![
            k.val("w", k.lit()),
            store,
            use_it(matched),
            inner,
            use_it(sum("w")),
            use_it(sum("xs")),
            use_it(sum("v")),
            use_it(sum("j")),
            use_it(steady),
        ],
        None,
    );
    let loop_stmt = k.s(StmtKind::Loop { body });
    let modified = collect_modified_vars(Piece::Stmt(&loop_stmt));
    for name in ["w", "xs", "v", "j"].iter() {
        assert!(modified.contains(name));
    }
    assert!(!modified.contains("p"));
    let m = module(vec![fun("f", &["p", "xs"], k.block(vec![loop_stmt], None))]);
    let r = analyze(&m, &sema());
    match &r.memo.candidates[0].strategy {
        MemoStrategy::LoopInvariantHoist { invariants } => assert_eq!(*invariants, vec![steady_id]),
        _ => panic!("a loop without recursion is hoisted from"),
    }
}

#[test]
fn stores_that_others_may_read_stay() {
    let k = Make::new();
    let shared = Decl::Expr { stmt: Some(k.var("shared", k.lit())) };
    let store = k.set("shared", k.lit());
    let local = k.val("x", k.lit());
    let lost = k.val("y", k.lit());
    let (store_id, local_id, lost_id) = (store.id, local.id, lost.id);
    let helper = k.s(StmtKind::LocalDecl { decl: Box::new(fun("helper", &[], k.id("x"))) });
    let m = module(vec![shared, fun("f", &[], k.block(vec![store, local, lost, helper], None))]);
    let r = analyze(&m, &sema());
    assert!(!r.dead_code.is_dead(store_id));
    assert!(!r.dead_code.is_dead(local_id));
    assert!(r.dead_code.is_dead(lost_id));
    // The function defines x, then y.
    assert!(!r.dead_var.is_dead(VarId(0)));
    assert!(r.dead_var.is_dead(VarId(1)));
}

#[test]
fn parameters_are_judged_by_what_they_are_given() {
    let k = Make::new();
    // fun f(p) { p = 1 }
    let f = k.block(vec![k.set("p", k.lit())], None);
    // fun g(p) { match p { p => 1 } }
    let g = k.e(ExprKind::Match {
        scrutinee: Box::new(k.id("p")),
        arms: vec![MatchArm { pattern: Pattern::Variable { name: "p".to_string() }, guard: None, body: k.lit() }],
    });
    // fun h(p) { fun inner() { p } }
    let h = k.block(vec![k.s(StmtKind::LocalDecl { decl: Box::new(fun("inner", &[], k.id("p"))) })], None);
    let m = module(vec![fun("f", &["p"], f), fun("g", &["p"], g), fun("h", &["p"], h)]);
    let r = analyze(&m, &sema());
    assert_eq!(r.dead_param.dead_params, vec![(FuncId(0), "p".to_string())]);
}

#[test]
fn groups_come_behind_those_that_they_call() {
    let k = Make::new();
    // a and b call each other and c; c and d call each other; e stands alone.
    let m = module(vec![
        fun("a", &[], k.add(k.call("b", vec![]), k.call("c", vec![]))),
        fun("b", &[], k.call("a", vec![])),
        fun("c", &[], k.call("d", vec![])),
        fun("d", &[], k.call("c", vec![])),
        fun("e", &[], k.call("a", vec![])),
    ]);
    let cg = graph_of(&m, &sema());
    let groups: Vec<Vec<u32>> = cg
        .mutually_recursive
        .iter()
        .map(|g| {
            let mut ids: Vec<u32> = g.iter().map(|f| f.0).collect();
            ids.sort();
            ids
        })
        .collect();
    assert_eq!(groups, vec![vec![2, 3], vec![0, 1]]);
    let all = find_groups(&cg.edges, &cg.reverse, &vec![0, 1, 2, 3, 4]);
    assert_eq!(all.len(), 3);
    assert_eq!(all[2], vec![FuncId(4)]);
}

#[test]
fn calls_that_hand_on_the_result_end_the_recursion() {
    let k = Make::new();
    let name = "f".to_string();
    // g(f(n)) and "${f(n)}" are values of the function; 1 + f(n) is not.
    let wrapped = k.call("g", vec![k.call("f", vec![k.id("n")])]);
    let shown = k.e(ExprKind::StrInterp(vec![InterpolationPart::Expression(k.call("f", vec![k.id("n")]))]));
    let sum = k.add(k.lit(), k.call("f", vec![k.id("n")]));
    let (wrapped_id, shown_id) = (wrapped.id, shown.id);
    let body = k.if_else(k.id("a"), wrapped, k.if_else(k.id("b"), shown, sum));
    let info = extract_non_tail_rec_info(&body, &name, 1);
    let values: Vec<ExprId> = info.base_cases.iter().map(|b| b.value).collect();
    assert_eq!(values, vec![wrapped_id, shown_id]);
    assert_eq!(info.call_sites.len(), 3);
}

#[test]
fn free_names_are_added_once() {
    let k = Make::new();
    let e = k.add(k.id("b"), k.add(k.id("a"), k.id("b")));
    let mut names = vec!["a".to_string(), "z".to_string()];
    collect_free_idents_expr(&e, &mut names);
    assert_eq!(names, vec!["a".to_string(), "z".to_string(), "b".to_string()]);
    collect_free_idents_expr(&e, &mut names);
    assert_eq!(names.len(), 3);
}
