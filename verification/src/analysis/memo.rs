//! Which functions are turned into loops, and whose results are remembered.

use super::call_graph::CallGraph;
use super::effects::Facts;
use super::functions::FuncMetaRef;
use super::inline_plan::{has_defer, holds, Feature};
use super::invariants::{collect_loop_invariants, loop_invariants};
use super::memo_plan::{CacheKeySpec, MemoCandidate, MemoCapacity, MemoPlan, MemoStrategy};
use super::recursion::{
    branches, call_sites, end_values, extract_non_tail_rec_info, extract_tail_rec_info, has_non_tail_self_call,
    inner_calls, is_tail_recursive, tail_recursive, Branches,
};
use super::scc::in_a_group;
use super::tables::{EscapeTable, FuncId, Purity, PurityTable};
use crate::ast::sema::SemaResult;
use crate::ast::tree::{Expr, ExprId, Module, Stmt};
use crate::ast::walk::{reached, Piece, Walk};
use vstd::prelude::*;

verus! {

/// What is done with a function.
pub ghost enum Treatment {
    /// Nothing.
    Leave,
    TailLoop(Branches),
    StackLoop { sites: Seq<ExprId>, bases: Seq<super::memo_plan::BaseCase>, continuation: ExprId, params: nat },
    /// All results are remembered, by all parameters.
    Remember(nat),
    Hoist(Seq<ExprId>),
}

/// Whether there is a branch of each kind.
pub open spec fn usable(b: Branches) -> bool {
    b.bases.len() > 0 && b.again.len() > 0
}

/// Whether a function that calls itself outside tail positions becomes a loop
/// with a stack: it defers nothing, and it has one such call and a value that
/// ends the recursion.
pub open spec fn stackable(body: Expr, name: Seq<char>) -> bool {
    !holds(Feature::Defer, body) && call_sites(body, name).len() == 1 && end_values(body, name).len() > 0
}

/// What is done with a function: an impure one is left alone; one that calls
/// itself becomes a loop where it can, and is remembered otherwise; of another
/// one, what has the same value in every round of a loop is computed once.
pub open spec fn treatment(cg: CallGraph, facts: Facts, f: FuncId, meta: FuncMetaRef) -> Treatment {
    let body = *meta.body;
    let count = meta.params@.len();
    if facts.purity.of(f) != Some(Purity::Pure) {
        Treatment::Leave
    } else if cg.recursive@.contains(f.0) {
        if tail_recursive(body, meta.name@) {
            if usable(branches(body, meta.name@, None)) {
                Treatment::TailLoop(branches(body, meta.name@, None))
            } else {
                Treatment::Remember(count)
            }
        } else if inner_calls(body, meta.name@) && stackable(body, meta.name@) {
            Treatment::StackLoop {
                sites: call_sites(body, meta.name@),
                bases: end_values(body, meta.name@),
                continuation: body.id,
                params: count,
            }
        } else {
            Treatment::Remember(count)
        }
    } else if in_a_group(cg.mutually_recursive@, f) {
        Treatment::Remember(count)
    } else if loop_invariants(facts, body).len() > 0 {
        Treatment::Hoist(loop_invariants(facts, body))
    } else {
        Treatment::Leave
    }
}

/// Whether the strategy does what is to be done.
pub open spec fn carries_out(s: MemoStrategy, t: Treatment) -> bool {
    match s {
        MemoStrategy::TailRecToLoop { info } => t == Treatment::TailLoop(info.branches()),
        MemoStrategy::NonTailRecToLoop { info } => t == (Treatment::StackLoop {
            sites: info.call_sites@,
            bases: info.base_cases@,
            continuation: info.continuation_expr,
            params: info.param_count as nat,
        }),
        MemoStrategy::Memoize { cache_key, capacity } => {
            &&& t == Treatment::Remember(cache_key.param_indices@.len())
            &&& capacity == MemoCapacity::Unlimited
            &&& forall|i: int|
                0 <= i < cache_key.param_indices@.len() ==> #[trigger] cache_key.param_indices@[i] == i
        },
        MemoStrategy::LoopInvariantHoist { invariants } => t == Treatment::Hoist(invariants@),
    }
}

/// The plan lists what is done with the first `n` functions, in order.
pub open spec fn plans_upto(cg: CallGraph, facts: Facts, metas: Seq<(FuncId, FuncMetaRef)>, n: int, plan: Seq<MemoCandidate>) -> bool
    decreases n,
{
    if n <= 0 {
        plan.len() == 0
    } else {
        let (f, meta) = metas[n - 1];
        let t = treatment(cg, facts, f, meta);
        if t is Leave {
            plans_upto(cg, facts, metas, n - 1, plan)
        } else {
            &&& plan.len() > 0
            &&& plan.last().func == f
            &&& carries_out(plan.last().strategy, t)
            &&& plans_upto(cg, facts, metas, n - 1, plan.drop_last())
        }
    }
}

/// The parameters of every function of the list can be numbered.
pub open spec fn params_fit(metas: Seq<(FuncId, FuncMetaRef)>) -> bool {
    forall|i: int| 0 <= i < metas.len() ==> (#[trigger] metas[i]).1.params@.len() <= u32::MAX
}

/// A candidate whose results are remembered by all its parameters.
fn memoize_all_params(func: FuncId, count: usize) -> (c: MemoCandidate)
    requires
        count <= u32::MAX,
    ensures
        c.func == func,
        carries_out(c.strategy, Treatment::Remember(count as nat)),
{
    let mut param_indices: Vec<u32> = Vec::new();
    let mut i: usize = 0;
    while i < count
        invariant
            i <= count <= u32::MAX,
            param_indices@.len() == i,
            forall|k: int| 0 <= k < i ==> #[trigger] param_indices@[k] == k,
        decreases count - i,
    {
        param_indices.push(i as u32);
        i = i + 1;
    }
    MemoCandidate {
        func,
        strategy: MemoStrategy::Memoize {
            cache_key: CacheKeySpec { param_indices },
            capacity: MemoCapacity::Unlimited,
        },
    }
}

fn in_group(gs: &Vec<Vec<FuncId>>, f: FuncId) -> (r: bool)
    ensures
        r == in_a_group(gs@, f),
{
    let mut i: usize = 0;
    while i < gs.len()
        invariant
            i <= gs@.len(),
            forall|k: int| 0 <= k < i ==> !(#[trigger] gs@[k])@.contains(f),
        decreases gs@.len() - i,
    {
        let g = &gs[i];
        let mut j: usize = 0;
        while j < g.len()
            invariant
                j <= g@.len(),
                i < gs@.len(),
                g@ == gs@[i as int]@,
                forall|k: int| 0 <= k < j ==> #[trigger] g@[k] != f,
            decreases g@.len() - j,
        {
            if g[j] == f {
                assert(gs@[i as int]@.contains(f));
                return true;
            }
            j = j + 1;
        }
        i = i + 1;
    }
    false
}

/// What is done with a function, where something is.
fn plan_function<'a>(cg: &CallGraph, facts: &Facts<'a>, func: FuncId, meta: FuncMetaRef<'a>) -> (r: Option<
    MemoCandidate,
>)
    requires
        meta.params@.len() <= u32::MAX,
    ensures
        match r {
            Some(c) => c.func == func && carries_out(c.strategy, treatment(*cg, *facts, func, meta)) && !(treatment(
                *cg,
                *facts,
                func,
                meta,
            ) is Leave),
            None => treatment(*cg, *facts, func, meta) is Leave,
        },
{
    if !facts.purity.is_pure(func) {
        return None;
    }
    let count = meta.params.len();
    if cg.recursive.contains(func.0) {
        if is_tail_recursive(meta.body, meta.name) {
            let info = extract_tail_rec_info(meta.body, meta.name);
            assert(info.branches().again.len() == info.rec_branches@.len());
            if info.is_valid() {
                return Some(MemoCandidate { func, strategy: MemoStrategy::TailRecToLoop { info } });
            }
            return Some(memoize_all_params(func, count));
        }
        if has_non_tail_self_call(meta.body, meta.name) {
            let info = extract_non_tail_rec_info(meta.body, meta.name, count);
            if !has_defer(meta.body) && info.is_valid() && info.call_sites.len() < 2 {
                return Some(MemoCandidate { func, strategy: MemoStrategy::NonTailRecToLoop { info } });
            }
            return Some(memoize_all_params(func, count));
        }
        return Some(memoize_all_params(func, count));
    }
    if in_group(&cg.mutually_recursive, func) {
        return Some(memoize_all_params(func, count));
    }
    let invariants = collect_loop_invariants(meta.body, facts);
    if invariants.len() > 0 {
        return Some(MemoCandidate { func, strategy: MemoStrategy::LoopInvariantHoist { invariants } });
    }
    None
}

/// What is done with the functions of the module.
pub fn memo_pass(
    module: &Module,
    cg: &CallGraph,
    purity: &PurityTable,
    escape: &EscapeTable,
    sema: &SemaResult,
) -> (plan: MemoPlan)
    requires
        params_fit(cg.metas(*module)),
    ensures
        plans_upto(
            *cg,
            Facts { module_name: &module.name, sema, purity, escape, func_name_to_id: &cg.name_to_func },
            cg.metas(*module),
            cg.metas(*module).len() as int,
            plan.candidates@,
        ),
{
    let facts = Facts { module_name: &module.name, sema, purity, escape, func_name_to_id: &cg.name_to_func };
    let metas = cg.iter_funcs(module);
    let mut candidates: Vec<MemoCandidate> = Vec::new();
    let mut i: usize = 0;
    while i < metas.len()
        invariant
            i <= metas@.len(),
            params_fit(metas@),
            plans_upto(*cg, facts, metas@, i as int, candidates@),
        decreases metas@.len() - i,
    {
        let (func, meta) = metas[i];
        assert(metas@[i as int].1.params@.len() <= u32::MAX);
        let ghost before = candidates@;
        if let Some(c) = plan_function(cg, &facts, func, meta) {
            candidates.push(c);
            assert(candidates@.drop_last() =~= before);
        }
        i = i + 1;
    }
    MemoPlan { candidates }
}

/// What is done with a function. An impure one is left alone. A pure one that
/// calls itself becomes a loop or is remembered by all its parameters; a loop
/// without a stack only where every call of itself is in a tail position and
/// some branch ends the recursion and some goes on. One of a circle is
/// remembered; of any other the invariants of its loops are hoisted, if there
/// are any.
pub proof fn law_treatments(cg: CallGraph, facts: Facts, f: FuncId, meta: FuncMetaRef)
    ensures
        ({
            let t = treatment(cg, facts, f, meta);
            let pure = facts.purity.of(f) == Some(Purity::Pure);
            let recursive = cg.recursive@.contains(f.0);
            let circle = in_a_group(cg.mutually_recursive@, f);
            &&& !pure ==> t is Leave
            &&& pure && recursive ==> t is TailLoop || t is StackLoop || t is Remember
            &&& t is TailLoop ==> pure && recursive && tail_recursive(*meta.body, meta.name@)
            &&& t matches Treatment::TailLoop(b) ==> b.bases.len() > 0 && b.again.len() > 0
            &&& t is StackLoop ==> pure && recursive && inner_calls(*meta.body, meta.name@)
            &&& t matches Treatment::StackLoop { sites, bases, continuation, params } ==> sites.len() == 1 && bases.len() > 0
                && continuation == meta.body.id && params == meta.params@.len()
            &&& t matches Treatment::Remember(n) ==> pure && (recursive || circle) && n == meta.params@.len()
            &&& pure && !recursive && circle ==> t is Remember
            &&& t is Hoist ==> pure && !recursive && !circle
            &&& pure && !recursive && !circle ==> (t is Leave <==> loop_invariants(facts, *meta.body).len() == 0)
        }),
{
}

/// The plan holds a candidate for every function that is not left alone, and it
/// does what is to be done with it; it holds no other.
pub proof fn law_plans_cover_the_functions(
    cg: CallGraph,
    facts: Facts,
    metas: Seq<(FuncId, FuncMetaRef)>,
    n: int,
    plan: Seq<MemoCandidate>,
    i: int,
)
    requires
        0 <= n <= metas.len(),
        plans_upto(cg, facts, metas, n, plan),
    ensures
        0 <= i < n && !(treatment(cg, facts, metas[i].0, metas[i].1) is Leave) ==> exists|j: int|
            0 <= j < plan.len() && (#[trigger] plan[j]).func == metas[i].0 && carries_out(
                plan[j].strategy,
                treatment(cg, facts, metas[i].0, metas[i].1),
            ),
        0 <= i < plan.len() ==> exists|j: int|
            0 <= j < n && (#[trigger] metas[j]).0 == plan[i].func && carries_out(
                plan[i].strategy,
                treatment(cg, facts, metas[j].0, metas[j].1),
            ) && facts.purity.of(metas[j].0) == Some(Purity::Pure),
    decreases n,
{
    if n > 0 {
        let (f, meta) = metas[n - 1];
        let t = treatment(cg, facts, f, meta);
        if t is Leave {
            law_plans_cover_the_functions(cg, facts, metas, n - 1, plan, i);
        } else {
            let q = plan.drop_last();
            law_plans_cover_the_functions(cg, facts, metas, n - 1, q, i);
            let l = plan.len() - 1;
            if 0 <= i < n && !(treatment(cg, facts, metas[i].0, metas[i].1) is Leave) {
                if i < n - 1 {
                    let j = choose|j: int|
                        0 <= j < q.len() && (#[trigger] q[j]).func == metas[i].0 && carries_out(
                            q[j].strategy,
                            treatment(cg, facts, metas[i].0, metas[i].1),
                        );
                    assert(plan[j].func == metas[i].0);
                } else {
                    assert(plan[l].func == metas[i].0);
                }
            }
            if i == l {
                assert(metas[n - 1].0 == plan[i].func);
            } else if 0 <= i < l {
                assert(q[i] == plan[i]);
            }
        }
    }
}

/// What a strategy that carries out a treatment is: a loop for a loop, and a
/// cache over all parameters, in order, for what is remembered.
pub proof fn law_strategies_fit_their_treatment(s: MemoStrategy, t: Treatment, k: int)
    requires
        carries_out(s, t),
    ensures
        t is TailLoop <==> s is TailRecToLoop,
        t is StackLoop <==> s is NonTailRecToLoop,
        t is Remember <==> s is Memoize,
        t is Hoist <==> s is LoopInvariantHoist,
        s matches MemoStrategy::Memoize { cache_key, .. } ==> 0 <= k < cache_key.param_indices@.len()
            ==> cache_key.param_indices@[k] == k,
        t matches Treatment::Remember(n) ==> (s matches MemoStrategy::Memoize { cache_key, capacity } ==> cache_key.param_indices@.len()
            == n && capacity == MemoCapacity::Unlimited),
{
}

/// A function becomes a loop with a stack only where nothing in its scope is
/// deferred.
pub proof fn law_deferring_functions_get_no_stack(cg: CallGraph, facts: Facts, f: FuncId, meta: FuncMetaRef, s: Stmt)
    requires
        reached(Walk::Inner, Piece::Expr(meta.body)).contains(Piece::Stmt(&s)),
        s.kind is Defer,
    ensures
        !(treatment(cg, facts, f, meta) is StackLoop),
{
    let all = reached(Walk::Inner, Piece::Expr(meta.body));
    let i = choose|i: int| 0 <= i < all.len() && all[i] == Piece::Stmt(&s);
    assert(crate::analysis::inline_plan::shows(Feature::Defer, all[i]));
    assert(holds(Feature::Defer, *meta.body));
}

} // verus!
