//! How a function calls itself, and what a loop in its place is made of.

use super::memo_plan::{BaseCase, NonTailRecInfo, RecBranch, TailRecInfo};
use crate::ast::tree::{Expr, ExprId, ExprKind, MatchArm, StmtKind};
use crate::ast::walk::{
    calls, calls_name, law_reached, lemma_self_call_steps_are_parts, lemma_step_is_smaller, piece_size, reach,
    reached, same_place, steps, Piece, Walk,
};
use vstd::prelude::*;

verus! {

// ---- where the function calls itself ---------------------------------------

/// Whether the place is a call of the function.
pub open spec fn self_call_at(name: Seq<char>, p: Piece) -> bool {
    match p {
        Piece::Expr(e) | Piece::Tail(e) => calls_name(*e, name),
        Piece::Stmt(_) => false,
    }
}

/// Whether the place is a call of the function outside tail positions.
pub open spec fn inner_call_at(name: Seq<char>, p: Piece) -> bool {
    match p {
        Piece::Expr(e) => calls_name(*e, name),
        _ => false,
    }
}

/// Whether some tail position of the body is a call of the function.
pub open spec fn tail_calls(body: Expr, name: Seq<char>) -> bool {
    let s = reached(Walk::TailCalls, Piece::Expr(&body));
    exists|i: int| 0 <= i < s.len() && self_call_at(name, #[trigger] s[i])
}

/// Whether the body calls the function outside tail positions.
pub open spec fn inner_calls(body: Expr, name: Seq<char>) -> bool {
    let s = reached(Walk::SelfCalls, Piece::Tail(&body));
    exists|i: int| 0 <= i < s.len() && inner_call_at(name, #[trigger] s[i])
}

/// Whether the body calls the function, and in tail positions only.
pub open spec fn tail_recursive(body: Expr, name: Seq<char>) -> bool {
    tail_calls(body, name) && !inner_calls(body, name)
}

/// Whether some tail position of the body is a call of the function.
pub fn has_tail_call(body: &Expr, self_name: &String) -> (r: bool)
    ensures
        r == tail_calls(*body, self_name@),
{
    let places = reach(Walk::TailCalls, Piece::Expr(body));
    let mut i: usize = 0;
    while i < places.len()
        invariant
            i <= places@.len(),
            places@ == reached(Walk::TailCalls, Piece::Expr(body)),
            forall|k: int| 0 <= k < i ==> !self_call_at(self_name@, #[trigger] places@[k]),
        decreases places@.len() - i,
    {
        if let Piece::Expr(e) | Piece::Tail(e) = places[i] {
            if calls(e, self_name) {
                assert(self_call_at(self_name@, places@[i as int]));
                return true;
            }
        }
        i = i + 1;
    }
    false
}

/// Whether the body calls the function outside tail positions.
pub fn has_non_tail_self_call(body: &Expr, self_name: &String) -> (r: bool)
    ensures
        r == inner_calls(*body, self_name@),
{
    let places = reach(Walk::SelfCalls, Piece::Tail(body));
    let mut i: usize = 0;
    while i < places.len()
        invariant
            i <= places@.len(),
            places@ == reached(Walk::SelfCalls, Piece::Tail(body)),
            forall|k: int| 0 <= k < i ==> !inner_call_at(self_name@, #[trigger] places@[k]),
        decreases places@.len() - i,
    {
        if let Piece::Expr(e) = places[i] {
            if calls(e, self_name) {
                assert(inner_call_at(self_name@, places@[i as int]));
                return true;
            }
        }
        i = i + 1;
    }
    false
}

/// Whether the body calls the function, and in tail positions only.
pub fn is_tail_recursive(body: &Expr, self_name: &String) -> (r: bool)
    ensures
        r == tail_recursive(*body, self_name@),
{
    has_tail_call(body, self_name) && !has_non_tail_self_call(body, self_name)
}

// ---- the branches of a tail-recursive body ---------------------------------

/// A branch that calls the function again: its condition and the arguments.
pub struct Again {
    pub cond: Option<ExprId>,
    pub args: Seq<ExprId>,
}

pub open spec fn expr_ids(s: Seq<Expr>) -> Seq<ExprId> {
    s.map_values(|e: Expr| e.id)
}

/// What the branches of an expression in a tail position come to: the values
/// that end the recursion, and the calls that go on.
pub struct Branches {
    pub bases: Seq<BaseCase>,
    pub again: Seq<Again>,
}

pub open spec fn no_branches() -> Branches {
    Branches { bases: seq![], again: seq![] }
}

pub open spec fn one_base(cond: Option<ExprId>, value: ExprId) -> Branches {
    Branches { bases: seq![BaseCase { cond, value }], again: seq![] }
}

pub open spec fn both(a: Branches, b: Branches) -> Branches {
    Branches { bases: a.bases + b.bases, again: a.again + b.again }
}

/// The branches of `e`, reached under `cond`: those of a block are the ones of
/// its last expression or of the `return` that it ends with; an `if` puts its
/// condition to the first branch and none to the second; the arms of a match
/// have none.
pub open spec fn branches(e: Expr, name: Seq<char>, cond: Option<ExprId>) -> Branches
    decreases e,
{
    match e.kind {
        ExprKind::Block { stmts, trailing } => match trailing {
            Some(t) => branches(*t, name, cond),
            None => if stmts@.len() > 0 {
                match stmts@.last().kind {
                    StmtKind::Return { value } => match value {
                        Some(v) => branches(v, name, cond),
                        None => one_base(cond, e.id),
                    },
                    _ => no_branches(),
                }
            } else {
                no_branches()
            },
        },
        ExprKind::If { cond: c, then_branch, else_branch } => {
            let first = branches(*then_branch, name, Some(c.id));
            match else_branch {
                Some(b) => both(first, branches(*b, name, None)),
                None => first,
            }
        },
        ExprKind::Match { arms, .. } => arm_branches(arms@, name),
        ExprKind::Call { args, .. } => if calls_name(e, name) {
            Branches { bases: seq![], again: seq![Again { cond, args: expr_ids(args@) }] }
        } else {
            one_base(cond, e.id)
        },
        _ => one_base(cond, e.id),
    }
}

pub open spec fn arm_branches(arms: Seq<MatchArm>, name: Seq<char>) -> Branches
    decreases arms,
{
    if arms.len() == 0 {
        no_branches()
    } else {
        both(arm_branches(arms.drop_last(), name), branches(arms.last().body, name, None))
    }
}

pub open spec fn again_of(s: Seq<RecBranch>) -> Seq<Again> {
    s.map_values(|r: RecBranch| Again { cond: r.cond, args: r.args@ })
}

impl TailRecInfo {
    pub open spec fn branches(self) -> Branches {
        Branches { bases: self.base_cases@, again: again_of(self.rec_branches@) }
    }
}

fn collect_tail_branches(e: &Expr, self_name: &String, cond: Option<ExprId>, info: &mut TailRecInfo)
    ensures
        final(info).branches() == both(old(info).branches(), branches(*e, self_name@, cond)),
    decreases e,
{
    let ghost start = info.branches();
    let ghost all = branches(*e, self_name@, cond);
    match &e.kind {
        ExprKind::Block { stmts, trailing } => {
            if let Some(t) = trailing {
                collect_tail_branches(t, self_name, cond, info);
            } else if stmts.len() > 0 {
                let last = &stmts[stmts.len() - 1];
                assert(decreases_to!(stmts@ => stmts@[stmts@.len() - 1]));
                if let StmtKind::Return { value } = &last.kind {
                    if let Some(v) = value {
                        collect_tail_branches(v, self_name, cond, info);
                    } else {
                        info.base_cases.push(BaseCase { cond, value: e.id });
                    }
                }
            }
        },
        ExprKind::If { cond: c, then_branch, else_branch } => {
            collect_tail_branches(then_branch, self_name, Some(c.id), info);
            if let Some(b) = else_branch {
                collect_tail_branches(b, self_name, None, info);
            }
        },
        ExprKind::Match { arms, .. } => {
            let mut i: usize = 0;
            assert(info.branches().bases =~= both(start, arm_branches(arms@.take(0), self_name@)).bases);
            assert(info.branches().again =~= both(start, arm_branches(arms@.take(0), self_name@)).again);
            while i < arms.len()
                invariant
                    i <= arms@.len(),
                    decreases_to!(*e => arms@),
                    info.branches() == both(start, arm_branches(arms@.take(i as int), self_name@)),
                decreases arms@.len() - i,
            {
                assert(arms@.take(i + 1).drop_last() =~= arms@.take(i as int));
                assert(decreases_to!(arms@ => arms@[i as int]));
                collect_tail_branches(&arms[i].body, self_name, None, info);
                i = i + 1;
                assert(info.branches().bases =~= both(start, arm_branches(arms@.take(i as int), self_name@)).bases);
                assert(info.branches().again =~= both(start, arm_branches(arms@.take(i as int), self_name@)).again);
            }
            assert(arms@.take(i as int) =~= arms@);
        },
        ExprKind::Call { args, .. } => {
            if calls(e, self_name) {
                let mut ids: Vec<ExprId> = Vec::new();
                let mut i: usize = 0;
                while i < args.len()
                    invariant
                        i <= args@.len(),
                        ids@ =~= expr_ids(args@.take(i as int)),
                    decreases args@.len() - i,
                {
                    ids.push(args[i].id);
                    i = i + 1;
                }
                assert(args@.take(i as int) =~= args@);
                let ghost before = info.rec_branches@;
                let branch = RecBranch { cond, args: ids };
                info.rec_branches.push(branch);
                assert(again_of(info.rec_branches@) =~= again_of(before).push(Again { cond, args: ids@ }));
            } else {
                info.base_cases.push(BaseCase { cond, value: e.id });
            }
        },
        _ => {
            info.base_cases.push(BaseCase { cond, value: e.id });
        },
    }
    assert(info.branches().bases =~= both(start, all).bases);
    assert(info.branches().again =~= both(start, all).again);
}

/// The branches of the body of a function that calls itself in tail positions.
pub fn extract_tail_rec_info(body: &Expr, self_name: &String) -> (info: TailRecInfo)
    ensures
        info.branches() == branches(*body, self_name@, None),
{
    let mut info = TailRecInfo { base_cases: Vec::new(), rec_branches: Vec::new() };
    assert(info.branches().again =~= seq![]);
    collect_tail_branches(body, self_name, None, &mut info);
    assert(info.branches().bases =~= branches(*body, self_name@, None).bases);
    assert(info.branches().again =~= branches(*body, self_name@, None).again);
    info
}

// ---- calls outside tail positions ------------------------------------------

/// The calls outside tail positions at the first `n` places.
pub open spec fn sites_upto(name: Seq<char>, s: Seq<Piece>, n: int) -> Seq<ExprId>
    decreases n,
{
    if n <= 0 {
        seq![]
    } else {
        match s[n - 1] {
            Piece::Expr(e) => if calls_name(*e, name) {
                sites_upto(name, s, n - 1).push(e.id)
            } else {
                sites_upto(name, s, n - 1)
            },
            _ => sites_upto(name, s, n - 1),
        }
    }
}

/// The calls of the function in its body outside tail positions, each before
/// those in its arguments.
pub open spec fn call_sites(body: Expr, name: Seq<char>) -> Seq<ExprId> {
    let s = reached(Walk::SelfCalls, Piece::Tail(&body));
    sites_upto(name, s, s.len() as int)
}

/// Whether the function is called somewhere in the expression.
pub open spec fn calls_within(e: Expr, name: Seq<char>) -> bool {
    let s = reached(Walk::Full, Piece::Expr(&e));
    exists|i: int| 0 <= i < s.len() && self_call_at(name, #[trigger] s[i])
}

/// Whether no part of an expression in a tail position is in one.
pub open spec fn is_end(e: Expr) -> bool {
    match e.kind {
        ExprKind::Block { trailing, .. } => trailing is None,
        ExprKind::If { .. } | ExprKind::Match { .. } => false,
        _ => true,
    }
}

/// Whether the body itself works on the parts of an expression: it runs them,
/// or makes a value from theirs.
pub open spec fn works_on_parts(e: Expr) -> bool {
    match e.kind {
        ExprKind::Block { .. }
        | ExprKind::Binary { .. }
        | ExprKind::Unary { .. }
        | ExprKind::ArrayLit { .. }
        | ExprKind::RecordLit(_)
        | ExprKind::RecordExtend { .. }
        | ExprKind::MethodCall { .. }
        | ExprKind::FieldAccess { .. }
        | ExprKind::Index { .. }
        | ExprKind::Assign { .. }
        | ExprKind::CompoundAssign { .. }
        | ExprKind::Elvis { .. }
        | ExprKind::RefOf(_)
        | ExprKind::Deref(_)
        | ExprKind::Propagate(_)
        | ExprKind::NonNullAssert(_)
        | ExprKind::Atomic(_)
        | ExprKind::Lazy(_) => true,
        _ => false,
    }
}

/// Whether an expression in a tail position is listed as one that ends the
/// recursion: it is no call of the function. Where the body works on its
/// parts, none of these calls the function either, since the work goes on
/// after that call; a call of another function is taken as a whole, whatever
/// its arguments are.
pub open spec fn ends_recursion(e: Expr, name: Seq<char>) -> bool {
    is_end(e) && !calls_name(e, name) && !(works_on_parts(e) && calls_within(e, name))
}

/// The values that end the recursion at the first `n` places.
pub open spec fn values_upto(name: Seq<char>, s: Seq<Piece>, n: int) -> Seq<BaseCase>
    decreases n,
{
    if n <= 0 {
        seq![]
    } else {
        match s[n - 1] {
            Piece::Tail(e) => if ends_recursion(*e, name) {
                values_upto(name, s, n - 1).push(BaseCase { cond: None, value: e.id })
            } else {
                values_upto(name, s, n - 1)
            },
            _ => values_upto(name, s, n - 1),
        }
    }
}

/// The values in tail positions of the body that end the recursion, in order.
pub open spec fn end_values(body: Expr, name: Seq<char>) -> Seq<BaseCase> {
    let s = reached(Walk::SelfCalls, Piece::Tail(&body));
    values_upto(name, s, s.len() as int)
}

/// Whether the function is called somewhere in the expression.
fn holds_call(e: &Expr, name: &String) -> (r: bool)
    ensures
        r == calls_within(*e, name@),
{
    let places = reach(Walk::Full, Piece::Expr(e));
    let mut i: usize = 0;
    while i < places.len()
        invariant
            i <= places@.len(),
            places@ == reached(Walk::Full, Piece::Expr(e)),
            forall|k: int| 0 <= k < i ==> !self_call_at(name@, #[trigger] places@[k]),
        decreases places@.len() - i,
    {
        if let Piece::Expr(x) | Piece::Tail(x) = places[i] {
            if calls(x, name) {
                assert(self_call_at(name@, places@[i as int]));
                return true;
            }
        }
        i = i + 1;
    }
    false
}

fn has_worked_parts(e: &Expr) -> (r: bool)
    ensures
        r == works_on_parts(*e),
{
    match &e.kind {
        ExprKind::Block { .. }
        | ExprKind::Binary { .. }
        | ExprKind::Unary { .. }
        | ExprKind::ArrayLit { .. }
        | ExprKind::RecordLit(_)
        | ExprKind::RecordExtend { .. }
        | ExprKind::MethodCall { .. }
        | ExprKind::FieldAccess { .. }
        | ExprKind::Index { .. }
        | ExprKind::Assign { .. }
        | ExprKind::CompoundAssign { .. }
        | ExprKind::Elvis { .. }
        | ExprKind::RefOf(_)
        | ExprKind::Deref(_)
        | ExprKind::Propagate(_)
        | ExprKind::NonNullAssert(_)
        | ExprKind::Atomic(_)
        | ExprKind::Lazy(_) => true,
        _ => false,
    }
}

fn is_end_value(e: &Expr, name: &String) -> (r: bool)
    ensures
        r == ends_recursion(*e, name@),
{
    let end: bool = match &e.kind {
        ExprKind::Block { trailing, .. } => trailing.is_none(),
        ExprKind::If { .. } | ExprKind::Match { .. } => false,
        _ => true,
    };
    end && !calls(e, name) && !(has_worked_parts(e) && holds_call(e, name))
}

/// The calls of the function outside tail positions, and the values that end
/// the recursion.
pub fn extract_non_tail_rec_info(body: &Expr, self_name: &String, param_count: usize) -> (info: NonTailRecInfo)
    ensures
        info.call_sites@ == call_sites(*body, self_name@),
        info.base_cases@ == end_values(*body, self_name@),
        info.continuation_expr == body.id,
        info.param_count == param_count,
{
    let places = reach(Walk::SelfCalls, Piece::Tail(body));
    let mut call_sites: Vec<ExprId> = Vec::new();
    let mut base_cases: Vec<BaseCase> = Vec::new();
    let mut i: usize = 0;
    while i < places.len()
        invariant
            i <= places@.len(),
            call_sites@ == sites_upto(self_name@, places@, i as int),
            base_cases@ == values_upto(self_name@, places@, i as int),
        decreases places@.len() - i,
    {
        match places[i] {
            Piece::Expr(e) => {
                if calls(e, self_name) {
                    call_sites.push(e.id);
                }
            },
            Piece::Tail(e) => {
                if is_end_value(e, self_name) {
                    base_cases.push(BaseCase { cond: None, value: e.id });
                }
            },
            Piece::Stmt(_) => {},
        }
        i = i + 1;
    }
    NonTailRecInfo { call_sites, continuation_expr: body.id, base_cases, param_count }
}

// ---- laws ------------------------------------------------------------------

proof fn lemma_sites(name: Seq<char>, s: Seq<Piece>, n: int)
    requires
        0 <= n <= s.len(),
    ensures
        sites_upto(name, s, n).len() > 0 <==> exists|i: int| 0 <= i < n && inner_call_at(name, #[trigger] s[i]),
    decreases n,
{
    if n > 0 {
        lemma_sites(name, s, n - 1);
        if sites_upto(name, s, n).len() > 0 && !inner_call_at(name, s[n - 1]) {
            let i = choose|i: int| 0 <= i < n - 1 && inner_call_at(name, #[trigger] s[i]);
            assert(inner_call_at(name, s[i]));
        }
    }
}

/// A body calls its function outside tail positions exactly where such calls
/// are listed.
pub proof fn law_inner_calls_are_listed(body: Expr, name: Seq<char>)
    ensures
        inner_calls(body, name) <==> call_sites(body, name).len() > 0,
{
    let s = reached(Walk::SelfCalls, Piece::Tail(&body));
    lemma_sites(name, s, s.len() as int);
}

/// No call of a function, anywhere in its body, goes unseen: it stands in a
/// tail position or outside of them.
pub proof fn law_every_self_call_is_seen(body: Expr, e: Expr)
    requires
        reached(Walk::Full, Piece::Expr(&body)).contains(Piece::Expr(&e)),
    ensures
        ({
            let s = reached(Walk::SelfCalls, Piece::Tail(&body));
            s.contains(Piece::Tail(&e)) || s.contains(Piece::Expr(&e))
        }),
{
    lemma_seen_with_tails(Piece::Expr(&body), Piece::Tail(&body), Piece::Expr(&e));
}

/// A function that is found to call itself in tail positions only has no
/// other call of itself, anywhere in its body.
pub proof fn law_tail_recursion_has_tail_calls_only(body: Expr, name: Seq<char>, e: Expr)
    requires
        tail_recursive(body, name),
        reached(Walk::Full, Piece::Expr(&body)).contains(Piece::Expr(&e)),
        calls_name(e, name),
    ensures
        reached(Walk::SelfCalls, Piece::Tail(&body)).contains(Piece::Tail(&e)),
{
    law_every_self_call_is_seen(body, e);
    let s = reached(Walk::SelfCalls, Piece::Tail(&body));
    if s.contains(Piece::Expr(&e)) {
        let i = choose|i: int| 0 <= i < s.len() && s[i] == Piece::Expr(&e);
        assert(inner_call_at(name, s[i]));
    }
}

proof fn lemma_seen_with_tails<'a>(p: Piece<'a>, q: Piece<'a>, x: Piece<'a>)
    requires
        same_place(p, q),
        reached(Walk::Full, p).contains(x),
    ensures
        exists|y: Piece<'a>| same_place(x, y) && #[trigger] reached(Walk::SelfCalls, q).contains(y),
    decreases piece_size(p),
{
    law_reached(Walk::Full, p, x);
    if x == p {
        law_reached(Walk::SelfCalls, q, q);
        assert(same_place(x, q));
    } else {
        let st = steps(Walk::Full, p);
        let i = choose|i: int| 0 <= i < st.len() && (#[trigger] reached(Walk::Full, st[i])).contains(x);
        lemma_self_call_steps_are_parts(p, q);
        lemma_step_is_smaller(Walk::Full, p, i);
        let sq = steps(Walk::SelfCalls, q);
        assert(same_place(st[i], sq[i]));
        lemma_seen_with_tails(st[i], sq[i], x);
        let y = choose|y: Piece<'a>| same_place(x, y) && #[trigger] reached(Walk::SelfCalls, sq[i]).contains(y);
        law_reached(Walk::SelfCalls, q, y);
        assert(reached(Walk::SelfCalls, q).contains(y));
    }
}

/// A body with a call of the function in a tail position has a branch that
/// calls it again.
pub proof fn law_tail_call_is_a_branch(e: Expr, name: Seq<char>, cond: Option<ExprId>)
    requires
        tail_calls(e, name),
    ensures
        branches(e, name, cond).again.len() > 0,
    decreases piece_size(Piece::Expr(&e)),
{
    let p = Piece::Expr(&e);
    let s = reached(Walk::TailCalls, p);
    let i = choose|i: int| 0 <= i < s.len() && self_call_at(name, #[trigger] s[i]);
    let x = s[i];
    assert(s.contains(x));
    law_reached(Walk::TailCalls, p, x);
    if x != p {
        let st = steps(Walk::TailCalls, p);
        let k = choose|k: int| 0 <= k < st.len() && (#[trigger] reached(Walk::TailCalls, st[k])).contains(x);
        lemma_step_is_smaller(Walk::TailCalls, p, k);
        let below = reached(Walk::TailCalls, st[k]);
        let j = choose|j: int| 0 <= j < below.len() && below[j] == x;
        assert(self_call_at(name, below[j]));
        match e.kind {
            ExprKind::Block { stmts, trailing } => {
                law_tail_call_is_a_branch(*trailing->0, name, cond);
            },
            ExprKind::If { cond: c, then_branch, else_branch } => {
                if k == 0 {
                    law_tail_call_is_a_branch(*then_branch, name, Some(c.id));
                } else {
                    law_tail_call_is_a_branch(*else_branch->0, name, None);
                }
            },
            ExprKind::Match { arms, .. } => {
                assert(st[k] == Piece::Expr(&arms@[k].body));
                law_tail_call_is_a_branch(arms@[k].body, name, None);
                lemma_arm_branch(arms@, name, k);
            },
            _ => {},
        }
    }
}

proof fn lemma_arm_branch(arms: Seq<MatchArm>, name: Seq<char>, k: int)
    requires
        0 <= k < arms.len(),
        branches(arms[k].body, name, None).again.len() > 0,
    ensures
        arm_branches(arms, name).again.len() > 0,
    decreases arms.len(),
{
    if k < arms.len() - 1 {
        lemma_arm_branch(arms.drop_last(), name, k);
    }
}

/// What becomes of the branches of a function that calls itself in tail
/// positions. A call of itself goes on with its arguments, in order; any other
/// value ends the recursion. A block stands for its last expression. Both
/// branches of an `if` count, the first under its condition; so do all arms of a
/// match.
pub proof fn law_branches_are_collected(e: Expr, name: Seq<char>, cond: Option<ExprId>, k: int)
    ensures
        e.kind matches ExprKind::Call { callee, args } ==> (callee.kind matches ExprKind::Ident(n) ==> n@ == name ==> {
            let b = branches(e, name, cond);
            &&& b.bases.len() == 0 && b.again.len() == 1
            &&& b.again[0].cond == cond && b.again[0].args.len() == args@.len()
            &&& 0 <= k < args@.len() ==> b.again[0].args[k] == args@[k].id
        }),
        e.kind matches ExprKind::Call { callee, .. } ==> !(callee.kind matches ExprKind::Ident(n) && n@ == name) ==> branches(
            e,
            name,
            cond,
        ).again.len() == 0 && branches(e, name, cond).bases == seq![BaseCase { cond, value: e.id }],
        !(e.kind is Call || e.kind is Block || e.kind is If || e.kind is Match) ==> branches(e, name, cond).again.len()
            == 0 && branches(e, name, cond).bases == seq![BaseCase { cond, value: e.id }],
        e.kind matches ExprKind::Block { trailing, .. } ==> trailing is Some ==> branches(e, name, cond) == branches(
            *(trailing->0),
            name,
            cond,
        ),
        e.kind matches ExprKind::If { cond: c, then_branch, else_branch } ==> {
            let b = branches(e, name, cond);
            let x = branches(*then_branch, name, Some(c.id));
            &&& else_branch is None ==> b == x
            &&& else_branch is Some ==> b.bases == x.bases + branches(*(else_branch->0), name, None).bases && b.again
                == x.again + branches(*(else_branch->0), name, None).again
        },
        e.kind matches ExprKind::Match { arms, .. } ==> 0 <= k < arms@.len() ==> {
            let b = branches(e, name, cond);
            let x = branches(arms@[k].body, name, None);
            &&& forall|i: int| #![trigger x.bases[i]] 0 <= i < x.bases.len() ==> b.bases.contains(x.bases[i])
            &&& forall|i: int| #![trigger x.again[i]] 0 <= i < x.again.len() ==> b.again.contains(x.again[i])
        },
{
    match e.kind {
        ExprKind::Match { arms, .. } => {
            if 0 <= k < arms@.len() {
                lemma_arm_branches(arms@, name, k);
            }
        },
        _ => {},
    }
}

proof fn lemma_arm_branches(arms: Seq<MatchArm>, name: Seq<char>, k: int)
    requires
        0 <= k < arms.len(),
    ensures
        ({
            let b = arm_branches(arms, name);
            let x = branches(arms[k].body, name, None);
            &&& forall|i: int| #![trigger x.bases[i]] 0 <= i < x.bases.len() ==> b.bases.contains(x.bases[i])
            &&& forall|i: int| #![trigger x.again[i]] 0 <= i < x.again.len() ==> b.again.contains(x.again[i])
        }),
    decreases arms.len(),
{
    let a = arm_branches(arms.drop_last(), name);
    let c = branches(arms.last().body, name, None);
    let b = arm_branches(arms, name);
    assert(b == both(a, c));
    let x = branches(arms[k].body, name, None);
    if k < arms.len() - 1 {
        assert(arms.drop_last()[k] == arms[k]);
        lemma_arm_branches(arms.drop_last(), name, k);
        assert forall|i: int| #![trigger x.bases[i]] 0 <= i < x.bases.len() implies b.bases.contains(x.bases[i]) by {
            let j = choose|j: int| 0 <= j < a.bases.len() && a.bases[j] == x.bases[i];
            assert((a.bases + c.bases)[j] == x.bases[i]);
        }
        assert forall|i: int| #![trigger x.again[i]] 0 <= i < x.again.len() implies b.again.contains(x.again[i]) by {
            let j = choose|j: int| 0 <= j < a.again.len() && a.again[j] == x.again[i];
            assert((a.again + c.again)[j] == x.again[i]);
        }
    } else {
        assert forall|i: int| #![trigger x.bases[i]] 0 <= i < x.bases.len() implies b.bases.contains(x.bases[i]) by {
            assert((a.bases + c.bases)[a.bases.len() + i] == x.bases[i]);
        }
        assert forall|i: int| #![trigger x.again[i]] 0 <= i < x.again.len() implies b.again.contains(x.again[i]) by {
            assert((a.again + c.again)[a.again.len() + i] == x.again[i]);
        }
    }
}

/// A literal or a variable in a tail position ends the recursion.
pub proof fn law_plain_values_end_the_recursion(body: Expr, name: Seq<char>, e: Expr)
    requires
        reached(Walk::SelfCalls, Piece::Tail(&body)).contains(Piece::Tail(&e)),
        e.kind is IntLit || e.kind is FloatLit || e.kind is BoolLit || e.kind is StrLit || e.kind is NullLit || e.kind
            is Ident,
    ensures
        end_values(body, name).contains(BaseCase { cond: None, value: e.id }),
{
    let s = reached(Walk::SelfCalls, Piece::Tail(&body));
    let i = choose|i: int| 0 <= i < s.len() && s[i] == Piece::Tail(&e);
    lemma_end_value(name, s, s.len() as int, i);
}

proof fn lemma_end_value(name: Seq<char>, s: Seq<Piece>, n: int, i: int)
    requires
        0 <= i < n <= s.len(),
        s[i] matches Piece::Tail(e) && ends_recursion(*e, name),
    ensures
        s[i] matches Piece::Tail(e) ==> values_upto(name, s, n).contains(BaseCase { cond: None, value: e.id }),
    decreases n,
{
    let r = values_upto(name, s, n - 1);
    if let Piece::Tail(e) = s[i] {
        let x = BaseCase { cond: None, value: e.id };
        if i < n - 1 {
            lemma_end_value(name, s, n - 1, i);
            let k = choose|k: int| 0 <= k < r.len() && r[k] == x;
            assert(values_upto(name, s, n)[k] == x);
        } else {
            assert(r.push(x)[r.len() as int] == x);
        }
    }
}

/// Whatever is listed as ending the recursion is an expression in a tail position
/// that is no call of the function, no `if` and no match.
pub proof fn law_calls_do_not_end_the_recursion(body: Expr, name: Seq<char>, k: int) -> (e: Expr)
    requires
        0 <= k < end_values(body, name).len(),
    ensures
        reached(Walk::SelfCalls, Piece::Tail(&body)).contains(Piece::Tail(&e)),
        end_values(body, name)[k] == (BaseCase { cond: None, value: e.id }),
        !(e.kind is If) && !(e.kind is Match),
        e.kind matches ExprKind::Call { callee, .. } ==> (callee.kind matches ExprKind::Ident(n) ==> n@ != name),
        (e.kind is Binary || e.kind is Unary) ==> !calls_within(e, name),
{
    let s = reached(Walk::SelfCalls, Piece::Tail(&body));
    lemma_listed_end(name, s, s.len() as int, k)
}

proof fn lemma_listed_end(name: Seq<char>, s: Seq<Piece>, n: int, k: int) -> (e: Expr)
    requires
        0 <= n <= s.len(),
        0 <= k < values_upto(name, s, n).len(),
    ensures
        s.contains(Piece::Tail(&e)),
        values_upto(name, s, n)[k] == (BaseCase { cond: None, value: e.id }),
        ends_recursion(e, name),
    decreases n,
{
    let r = values_upto(name, s, n - 1);
    if k < r.len() {
        lemma_listed_end(name, s, n - 1, k)
    } else {
        assert(s.contains(s[n - 1]));
        match s[n - 1] {
            Piece::Tail(e) => *e,
            _ => arbitrary(),
        }
    }
}

} // verus!
