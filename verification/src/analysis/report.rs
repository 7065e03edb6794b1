//! All analyses of a module together.

use super::call_graph::{build_call_graph, module_metas, CallGraph};
use super::dead_code::{dead_code_pass, dead_upto, DeadCodeReport};
use super::dead_funcs::{dead_func_pass, kept, reason_fits, DeadFuncReport};
use super::dead_vars::{
    dead_def, dead_param_pass, dead_params_upto, dead_var_pass, DeadParamReport, DeadVarReport,
};
use super::def_use::{build_def_use, entries_upto, globals, is_numberable, numberable, trace, DefUseGraph};
use super::effects::Facts;
use super::escape::{analyze_escape, escape_map};
use super::functions::{do_functions_fit, func_metas, functions_fit, list_functions};
use super::inline_plan::{candidates_upto, inline_pass, picked, InlineReport};
use super::memo::{memo_pass, params_fit, plans_upto};
use super::memo_plan::MemoPlan;
use super::patterns::{body_places, dead_arms_upto, match_pass, reports_upto, MatchReport};
use super::purity::{analyze_purity, purity_of};
use super::stack_alloc::{stack_alloc_pass, StackAllocReport};
use super::tables::{EscapeInfo, EscapeTable, FuncId, PurityTable};
use crate::ast::sema::SemaResult;
use crate::ast::tree::{ExprId, Module};
use crate::pass::loops::LoopAnalysisReport;
use vstd::prelude::*;

verus! {

/// `rayon::join`: runs both closures, maybe at the same time, and returns what
/// each of them returned. It panics where a closure does, or where the thread
/// pool cannot be started; no closure of this library panics.
pub assume_specification<A, B, RA, RB>[ rayon::join::<A, B, RA, RB> ](oper_a: A, oper_b: B) -> (r: (RA, RB))
    where A: FnOnce() -> RA + Send, B: FnOnce() -> RB + Send, RA: Send, RB: Send
    requires
        oper_a.requires(()),
        oper_b.requires(()),
    ensures
        oper_a.ensures((), r.0),
        oper_b.ensures((), r.1),
;

/// What the analyses of a module found.
#[derive(Debug)]
pub struct AnalysisReport {
    pub def_use: DefUseGraph,
    pub call_graph: CallGraph,
    pub purity: PurityTable,
    pub escape: EscapeTable,
    pub dead_code: DeadCodeReport,
    pub dead_var: DeadVarReport,
    pub dead_func: DeadFuncReport,
    pub memo: MemoPlan,
    pub dead_param: DeadParamReport,
    pub inline: InlineReport,
    pub stack_alloc: StackAllocReport,
    pub match_report: MatchReport,
    /// Filled once the dataflow graph is built.
    pub loop_analysis: LoopAnalysisReport,
}

/// The functions, parameters, definitions and uses of the module can be
/// numbered.
pub open spec fn analyzable(m: Module) -> bool {
    numberable(m) && functions_fit(m) && params_fit(module_metas(m))
}

/// Whether the functions, parameters, definitions and uses of the module can be
/// numbered.
pub fn is_analyzable(module: &Module) -> (r: bool)
    ensures
        r == analyzable(*module),
{
    if !is_numberable(module) || !do_functions_fit(module) {
        return false;
    }
    let fs = list_functions(module);
    let metas = func_metas(&fs.locs, module, &fs.nodes);
    let mut i: usize = 0;
    while i < metas.len()
        invariant
            i <= metas@.len(),
            metas@ == module_metas(*module),
            forall|k: int| 0 <= k < i ==> (#[trigger] metas@[k]).1.params@.len() <= u32::MAX,
        decreases metas@.len() - i,
    {
        if metas[i].1.params.len() > 0xFFFF_FFFF {
            assert(metas@[i as int].1.params@.len() > u32::MAX);
            return false;
        }
        i = i + 1;
    }
    true
}

pub open spec fn def_use_of(g: DefUseGraph, m: Module) -> bool {
    &&& g.wf()
    &&& g.trace() == trace(m)
    &&& g.global_vars@ == globals(m)
    &&& entries_upto(g.live_in@, m, m.declarations@.len() as int)
}

pub open spec fn purity_table_of(t: PurityTable, cg: CallGraph, sema: SemaResult, m: Module) -> bool {
    t.wf() && forall|f: FuncId| #[trigger] t.of(f) == purity_of(cg, sema, m, f)
}

pub open spec fn inline_of(r: InlineReport, cg: CallGraph, purity: PurityTable, sema: SemaResult, m: Module) -> bool {
    &&& r.candidates@ == candidates_upto(cg, purity, sema, cg.metas(m), cg.metas(m).len() as int)
    &&& r.expansions.wf()
    &&& forall|e: u32| #[trigger]
        r.expansions@.contains_key(e) <==> cg.call_sites@.contains_key(e) && picked(
            r.candidates@,
            cg.call_sites@[e],
        )
    &&& forall|e: u32| #[trigger] r.expansions@.contains_key(e) ==> r.expansions@[e] == cg.call_sites@[e]
}

pub open spec fn stack_alloc_of(r: StackAllocReport, escape: EscapeTable) -> bool {
    &&& r.candidates@.no_duplicates()
    &&& forall|e: ExprId| #[trigger] r.candidates@.contains(e) <==> escape.of(e) == Some(EscapeInfo::NoEscape)
}

pub open spec fn match_report_of(r: MatchReport, cg: CallGraph, sema: SemaResult, m: Module) -> bool {
    let s = body_places(cg.metas(m), cg.metas(m).len() as int);
    &&& r.unreachable_arms@ == dead_arms_upto(s, s.len() as int)
    &&& reports_upto(sema, m.name@, s, s.len() as int, r.non_exhaustive@)
}

pub open spec fn dead_func_of(r: DeadFuncReport, cg: CallGraph, memo: MemoPlan) -> bool {
    &&& forall|f: u32| #[trigger]
        r.dead@.contains(f) <==> cg.nodes@.contains(FuncId(f)) && !kept(cg, memo).contains(f)
    &&& forall|f: u32| #[trigger] r.reachable_reasons@.contains_key(f) <==> kept(cg, memo).contains(f)
    &&& forall|f: u32| #[trigger]
        r.reachable_reasons@.contains_key(f) ==> reason_fits(cg, memo, f, r.reachable_reasons@[f])
}

impl AnalysisReport {
    /// What the classification of expressions rests on.
    pub open spec fn facts<'a>(self, sema: SemaResult, m: Module) -> Facts<'a> {
        Facts {
            module_name: &m.name,
            sema: &sema,
            purity: &self.purity,
            escape: &self.escape,
            func_name_to_id: &self.call_graph.name_to_func,
        }
    }

    /// The report on the module.
    pub open spec fn of(self, sema: SemaResult, m: Module) -> bool {
        let cg = self.call_graph;
        let facts = self.facts(sema, m);
        let metas = cg.metas(m);
        &&& def_use_of(self.def_use, m)
        &&& cg.of(sema, m)
        &&& purity_table_of(self.purity, cg, sema, m)
        &&& self.escape.wf()
        &&& self.escape.map@ == escape_map(m, cg, self.purity)
        &&& self.dead_code.dead_stmts@ == dead_upto(facts, self.def_use.global_vars@, metas, metas.len() as int)
        &&& forall|v: u32| #[trigger]
            self.dead_var.dead_vars@.contains(v) <==> dead_def(m, self.def_use, self.dead_code.dead_stmts@, v as int)
        &&& dead_func_of(self.dead_func, cg, self.memo)
        &&& plans_upto(cg, facts, metas, metas.len() as int, self.memo.candidates@)
        &&& self.dead_param.dead_params@ == dead_params_upto(self.def_use, metas, metas.len() as int)
        &&& inline_of(self.inline, cg, self.purity, sema, m)
        &&& stack_alloc_of(self.stack_alloc, self.escape)
        &&& match_report_of(self.match_report, cg, sema, m)
        &&& self.loop_analysis.invariants@.len() == 0
        &&& self.loop_analysis.unrollable@.len() == 0
    }
}

/// Runs all analyses of a module. Those that need nothing of each other may run
/// at the same time.
pub fn analyze(module: &Module, sema: &SemaResult) -> (report: AnalysisReport)
    requires
        analyzable(*module),
    ensures
        report.of(*sema, *module),
{
    let find_uses = || -> (r: DefUseGraph)
        requires
            numberable(*module),
        ensures
            def_use_of(r, *module),
        { build_def_use(module) };
    let find_calls = || -> (r: CallGraph)
        requires
            functions_fit(*module),
        ensures
            r.of(*sema, *module),
        { build_call_graph(module, sema) };
    let (def_use, call_graph) = rayon::join(find_uses, find_calls);
    let cg: &CallGraph = &call_graph;
    let uses: &DefUseGraph = &def_use;

    let purity_table = analyze_purity(module, cg, sema);
    let purity: &PurityTable = &purity_table;
    let escape_table = analyze_escape(module, cg, purity);
    let escape: &EscapeTable = &escape_table;

    let ghost facts = Facts { module_name: &module.name, sema, purity, escape, func_name_to_id: &cg.name_to_func };
    let ghost metas = cg.metas(*module);
    let find_dead = || -> (r: DeadCodeReport)
        ensures
            r.dead_stmts@ == dead_upto(
                Facts { module_name: &module.name, sema, purity, escape, func_name_to_id: &cg.name_to_func },
                uses.global_vars@,
                cg.metas(*module),
                cg.metas(*module).len() as int,
            ),
        { dead_code_pass(module, &module.name, sema, purity, escape, cg, uses) };
    let plan_memo = || -> (r: MemoPlan)
        requires
            params_fit(cg.metas(*module)),
        ensures
            plans_upto(
                *cg,
                Facts { module_name: &module.name, sema, purity, escape, func_name_to_id: &cg.name_to_func },
                cg.metas(*module),
                cg.metas(*module).len() as int,
                r.candidates@,
            ),
        { memo_pass(module, cg, purity, escape, sema) };
    let (dead_code, memo) = rayon::join(find_dead, plan_memo);
    let dead_var = dead_var_pass(module, uses, &dead_code);
    let dead_func = dead_func_pass(cg, &memo);

    let find_params = || -> (r: DeadParamReport)
        requires
            uses.wf(),
        ensures
            r.dead_params@ == dead_params_upto(*uses, cg.metas(*module), cg.metas(*module).len() as int),
        { dead_param_pass(module, uses, cg) };
    let plan_inline = || -> (r: InlineReport)
        requires
            cg.wf(),
        ensures
            inline_of(r, *cg, *purity, *sema, *module),
        { inline_pass(module, cg, purity, sema) };
    let plan_stack = || -> (r: StackAllocReport)
        requires
            escape.wf(),
        ensures
            stack_alloc_of(r, *escape),
        { stack_alloc_pass(escape) };
    let check_matches = || -> (r: MatchReport)
        ensures
            match_report_of(r, *cg, *sema, *module),
        { match_pass(module, sema, cg) };
    let first_two = || -> (r: (DeadParamReport, InlineReport))
        requires
            find_params.requires(()),
            plan_inline.requires(()),
        ensures
            find_params.ensures((), r.0),
            plan_inline.ensures((), r.1),
        { rayon::join(find_params, plan_inline) };
    let last_two = || -> (r: (StackAllocReport, MatchReport))
        requires
            plan_stack.requires(()),
            check_matches.requires(()),
        ensures
            plan_stack.ensures((), r.0),
            check_matches.ensures((), r.1),
        { rayon::join(plan_stack, check_matches) };
    let ((dead_param, inline), (stack_alloc, match_report)) = rayon::join(first_two, last_two);
    let report = AnalysisReport {
        def_use,
        call_graph,
        purity: purity_table,
        escape: escape_table,
        dead_code,
        dead_var,
        dead_func,
        memo,
        dead_param,
        inline,
        stack_alloc,
        match_report,
        loop_analysis: LoopAnalysisReport { invariants: Vec::new(), unrollable: Vec::new() },
    };
    assert(report.facts(*sema, *module) == facts);
    report
}

} // verus!
