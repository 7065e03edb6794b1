//! Statements that can be left out: those that are never run, and those that
//! set a local variable which nobody reads.

use super::call_graph::CallGraph;
use super::closure::ids;
use super::def_use::DefUseGraph;
use super::effects::{is_side_effect_free, Facts, SideEffect};
use super::functions::FuncMetaRef;
use super::tables::{EscapeTable, FuncId, PurityTable};
use crate::ast::sema::{const_condition, eval_const_bool, SemaResult};
use crate::ast::tree::{Expr, ExprKind, Module, Stmt, StmtId, StmtKind};
use crate::ast::walk::{
    count_live, expr_parts, ident_of, lemma_read_step_is_smaller, live_prefix, piece_size, push_read_steps, reach, reached,
    read_steps, stmt_parts, Piece, Walk,
};
use crate::fx::{IdSet, NameSet};
use vstd::prelude::*;

verus! {

/// The statements that can be left out.
#[derive(Debug)]
pub struct DeadCodeReport {
    pub dead_stmts: IdSet,
}

impl DeadCodeReport {
    pub fn new() -> (r: Self)
        ensures
            r.dead_stmts@ == Set::<u32>::empty(),
    {
        DeadCodeReport { dead_stmts: IdSet::new() }
    }

    pub fn is_dead(&self, s: StmtId) -> (r: bool)
        ensures
            r == self.dead_stmts@.contains(s.0),
    {
        self.dead_stmts.contains(s.0)
    }
}

// ---- statements that are never run -----------------------------------------

/// Whether the place is a block in which the statement follows the one that
/// ends it.
pub open spec fn cut_off_at(p: Piece, id: u32) -> bool {
    match p {
        Piece::Expr(e) | Piece::Tail(e) => match e.kind {
            ExprKind::Block { stmts, .. } => cut_off(stmts@, id),
            _ => false,
        },
        Piece::Stmt(_) => false,
    }
}

/// Whether the statement follows the one that ends the list.
pub open spec fn cut_off(s: Seq<Stmt>, id: u32) -> bool {
    exists|k: int| live_prefix(s) < k < s.len() && (#[trigger] s[k]).id.0 == id
}

/// The statements of a body that follow the end of their block.
pub open spec fn unreachable_stmts(body: Expr) -> Set<u32> {
    let s = reached(Walk::Reachable, Piece::Expr(&body));
    Set::new(|id: u32| exists|i: int| 0 <= i < s.len() && cut_off_at(#[trigger] s[i], id))
}

/// The statements in an expression, those of lambdas and local functions left
/// aside.
pub open spec fn stmts_in(e: Expr) -> Set<u32> {
    let s = reached(Walk::Inner, Piece::Expr(&e));
    Set::new(|id: u32| exists|i: int| 0 <= i < s.len() && is_stmt(#[trigger] s[i], id))
}

pub open spec fn is_stmt(p: Piece, id: u32) -> bool {
    match p {
        Piece::Stmt(s) => s.id.0 == id,
        _ => false,
    }
}

fn mark_unreachable(body: &Expr, report: &mut DeadCodeReport)
    ensures
        final(report).dead_stmts@ == old(report).dead_stmts@.union(unreachable_stmts(*body)),
{
    let places = reach(Walk::Reachable, Piece::Expr(body));
    let ghost start = report.dead_stmts@;
    let mut i: usize = 0;
    while i < places.len()
        invariant
            i <= places@.len(),
            forall|id: u32| #[trigger]
                report.dead_stmts@.contains(id) <==> start.contains(id) || exists|k: int|
                    0 <= k < i && cut_off_at(#[trigger] places@[k], id),
        decreases places@.len() - i,
    {
        let ghost before = report.dead_stmts@;
        let p = places[i];
        if let Piece::Expr(e) | Piece::Tail(e) = p {
            if let ExprKind::Block { stmts, .. } = &e.kind {
                let n = count_live(stmts);
                if n < stmts.len() {
                    let mut k: usize = n + 1;
                    while k < stmts.len()
                        invariant
                            n < k <= stmts@.len(),
                            forall|id: u32| #[trigger]
                                report.dead_stmts@.contains(id) <==> before.contains(id) || exists|j: int|
                                    n < j < k && (#[trigger] stmts@[j]).id.0 == id,
                        decreases stmts@.len() - k,
                    {
                        let ghost now = report.dead_stmts@;
                        report.dead_stmts.insert(stmts[k].id.0);
                        assert forall|id: u32| #[trigger]
                            report.dead_stmts@.contains(id) <==> before.contains(id) || exists|j: int|
                                n < j < k + 1 && (#[trigger] stmts@[j]).id.0 == id by {
                            assert(now.contains(id) <==> before.contains(id) || exists|j: int|
                                n < j < k && (#[trigger] stmts@[j]).id.0 == id);
                            assert(report.dead_stmts@.contains(id) <==> now.contains(id) || stmts@[k as int].id.0
                                == id);
                        }
                        k = k + 1;
                    }
                    assert forall|id: u32| report.dead_stmts@.contains(id) <==> before.contains(id) || cut_off_at(
                        p,
                        id,
                    ) by {
                        assert(report.dead_stmts@.contains(id) <==> before.contains(id) || cut_off(stmts@, id));
                    }
                }
            }
        }
        assert forall|id: u32| report.dead_stmts@.contains(id) <==> before.contains(id) || cut_off_at(p, id) by {}
        assert forall|id: u32| #[trigger]
            report.dead_stmts@.contains(id) <==> start.contains(id) || exists|k: int|
                0 <= k < i + 1 && cut_off_at(#[trigger] places@[k], id) by {
            assert(before.contains(id) <==> start.contains(id) || exists|k: int|
                0 <= k < i && cut_off_at(#[trigger] places@[k], id));
            assert(cut_off_at(places@[i as int], id) == cut_off_at(p, id));
        }
        i = i + 1;
    }
    assert(report.dead_stmts@ =~= start.union(unreachable_stmts(*body)));
}

// ---- what is read ----------------------------------------------------------

pub open spec fn names_at(p: Piece) -> Set<Seq<char>> {
    match p {
        Piece::Expr(e) | Piece::Tail(e) => match e.kind {
            ExprKind::Ident(name) => Set::empty().insert(name@),
            _ => Set::empty(),
        },
        Piece::Stmt(_) => Set::empty(),
    }
}

/// The names that are read at and below a place, where the statements of the
/// set are left out.
pub open spec fn reads<'a>(dead: Set<u32>, p: Piece<'a>) -> Set<Seq<char>>
    decreases piece_size(p), read_steps(dead, p).len() + 1,
{
    names_at(p).union(reads_below(dead, p, read_steps(dead, p).len()))
}

pub open spec fn reads_below<'a>(dead: Set<u32>, p: Piece<'a>, k: nat) -> Set<Seq<char>>
    decreases piece_size(p), k,
    via reads_below_decreases
{
    if k == 0 || k > read_steps(dead, p).len() {
        Set::empty()
    } else {
        reads_below(dead, p, (k - 1) as nat).union(reads(dead, read_steps(dead, p)[k - 1]))
    }
}

#[via_fn]
proof fn reads_below_decreases<'a>(dead: Set<u32>, p: Piece<'a>, k: nat) {
    if k == 0 || k > read_steps(dead, p).len() {
    } else {
        lemma_read_step_is_smaller(dead, p, k - 1);
    }
}

fn collect_reads<'a>(p: Piece<'a>, dead: &IdSet, out: &mut NameSet)
    ensures
        final(out)@ == old(out)@.union(reads(dead@, p)),
    decreases piece_size(p),
{
    let ghost start = out@;
    if let Piece::Expr(e) | Piece::Tail(e) = p {
        if let Some(name) = ident_of(e) {
            out.insert(name.clone());
        }
    }
    assert(out@ =~= start.union(names_at(p)));
    let ghost own = out@;
    let mut next: Vec<Piece<'a>> = Vec::new();
    push_read_steps(&mut next, dead, p);
    assert(next@ =~= read_steps(dead@, p));
    let mut i: usize = 0;
    assert(out@ =~= own.union(reads_below(dead@, p, 0)));
    while i < next.len()
        invariant
            i <= next@.len(),
            next@ == read_steps(dead@, p),
            out@ == own.union(reads_below(dead@, p, i as nat)),
        decreases next@.len() - i,
    {
        proof {
            lemma_read_step_is_smaller(dead@, p, i as int);
        }
        collect_reads(next[i], dead, out);
        i = i + 1;
        assert(out@ =~= own.union(reads_below(dead@, p, i as nat)));
    }
    assert(out@ =~= start.union(reads(dead@, p)));
}

/// The more statements are left out, the less is read.
pub proof fn law_fewer_reads_of_fewer_statements(a: Set<u32>, b: Set<u32>, p: Piece)
    requires
        a.subset_of(b),
    ensures
        reads(b, p).subset_of(reads(a, p)),
    decreases piece_size(p), read_steps(b, p).len() + 1,
{
    let n = read_steps(b, p).len();
    if n > 0 {
        assert(read_steps(a, p) == read_steps(b, p));
        lemma_fewer_reads_below(a, b, p, n);
    } else {
        assert(reads_below(b, p, 0) =~= Set::empty());
    }
}

proof fn lemma_fewer_reads_below(a: Set<u32>, b: Set<u32>, p: Piece, k: nat)
    requires
        a.subset_of(b),
        read_steps(a, p) == read_steps(b, p),
        k <= read_steps(b, p).len(),
    ensures
        reads_below(b, p, k).subset_of(reads_below(a, p, k)),
    decreases piece_size(p), k,
{
    if k > 0 {
        lemma_read_step_is_smaller(b, p, k - 1);
        lemma_fewer_reads_below(a, b, p, (k - 1) as nat);
        law_fewer_reads_of_fewer_statements(a, b, read_steps(b, p)[k - 1]);
    }
}

// ---- what nobody needs -----------------------------------------------------

/// The variable that a statement sets, with the value.
pub open spec fn sets_variable(p: Piece) -> Option<(Seq<char>, Expr, u32)> {
    match p {
        Piece::Stmt(s) => match s.kind {
            StmtKind::ValDecl { name, value } | StmtKind::VarDecl { name, value } => Some((name@, value, s.id.0)),
            StmtKind::Assignment { target, value } | StmtKind::CompoundAssignment { target, value } => {
                match target.kind {
                    ExprKind::Ident(name) => Some((name@, value, s.id.0)),
                    _ => None,
                }
            },
            _ => None,
        },
        _ => None,
    }
}

/// The branch that an `if` with a known condition never takes.
pub open spec fn dead_branch(facts: Facts, p: Piece) -> Option<Expr> {
    match p {
        Piece::Expr(e) | Piece::Tail(e) => match e.kind {
            ExprKind::If { cond, then_branch, else_branch } => match const_condition(
                *facts.sema,
                facts.module_name@,
                *cond,
            ) {
                Some(true) => match else_branch {
                    Some(b) => Some(*b),
                    None => None,
                },
                Some(false) => Some(*then_branch),
                None => None,
            },
            _ => None,
        },
        Piece::Stmt(_) => None,
    }
}

/// Whether the statement can be left out for what stands at the place: it sets
/// a variable outside `read` to a value without side effects, or it is in a
/// branch that is never taken.
pub open spec fn needless_at(facts: Facts, read: Set<Seq<char>>, p: Piece, id: u32) -> bool {
    ||| (sets_variable(p) matches Some(v) && v.2 == id && !read.contains(v.0) && facts.side_effect(v.1)
        != SideEffect::Impure)
    ||| (dead_branch(facts, p) matches Some(b) && stmts_in(b).contains(id))
}

/// The statements of a body that can be left out when those names are read.
pub open spec fn needless(facts: Facts, read: Set<Seq<char>>, body: Expr) -> Set<u32> {
    let s = reached(Walk::DeadDecls, Piece::Expr(&body));
    Set::new(|id: u32| exists|i: int| 0 <= i < s.len() && needless_at(facts, read, #[trigger] s[i], id))
}

/// The names whose values may matter where the statements of the set are left
/// out: those that the body reads, and those of module variables, which others
/// may read.
pub open spec fn wanted(globals: Set<Seq<char>>, dead: Set<u32>, body: Expr) -> Set<Seq<char>> {
    globals.union(reads(dead, Piece::Expr(&body)))
}

/// Leaving out the statements of the set makes no other statement of the body
/// needless.
pub open spec fn settled(facts: Facts, globals: Set<Seq<char>>, body: Expr, dead: Set<u32>) -> bool {
    needless(facts, wanted(globals, dead, body), body).subset_of(dead)
}

/// The least set of statements around `start` that is settled.
pub open spec fn least_settled(facts: Facts, globals: Set<Seq<char>>, body: Expr, start: Set<u32>) -> Set<u32> {
    Set::new(
        |id: u32|
            forall|s: Set<u32>| start.subset_of(s) && #[trigger] settled(facts, globals, body, s) ==> s.contains(id),
    )
}

/// The dead statements after a look at a function.
pub open spec fn dead_after(facts: Facts, globals: Set<Seq<char>>, start: Set<u32>, body: Expr) -> Set<u32> {
    least_settled(facts, globals, body, start.union(unreachable_stmts(body)))
}

/// The dead statements after a look at the first `n` functions.
pub open spec fn dead_upto(
    facts: Facts,
    globals: Set<Seq<char>>,
    metas: Seq<(FuncId, FuncMetaRef)>,
    n: int,
) -> Set<u32>
    decreases n,
{
    if n <= 0 {
        Set::empty()
    } else {
        dead_after(facts, globals, dead_upto(facts, globals, metas, n - 1), *metas[n - 1].1.body)
    }
}

/// The statements in an expression.
fn push_stmts_in(e: &Expr, out: &mut Vec<u32>)
    ensures
        ids(final(out)@) == ids(old(out)@).union(stmts_in(*e)),
{
    let places = reach(Walk::Inner, Piece::Expr(e));
    let ghost start = out@;
    let mut i: usize = 0;
    while i < places.len()
        invariant
            i <= places@.len(),
            forall|id: u32| #[trigger]
                out@.contains(id) <==> start.contains(id) || exists|k: int|
                    0 <= k < i && is_stmt(#[trigger] places@[k], id),
        decreases places@.len() - i,
    {
        let ghost before = out@;
        if let Piece::Stmt(s) = places[i] {
            out.push(s.id.0);
            proof {
                lemma_push(before, s.id.0);
            }
        }
        assert forall|id: u32| #[trigger]
            out@.contains(id) <==> start.contains(id) || exists|k: int|
                0 <= k < i + 1 && is_stmt(#[trigger] places@[k], id) by {
            assert(before.contains(id) <==> start.contains(id) || exists|k: int|
                0 <= k < i && is_stmt(#[trigger] places@[k], id));
            assert(out@.contains(id) <==> before.contains(id) || is_stmt(places@[i as int], id));
        }
        i = i + 1;
    }
    assert(ids(out@) =~= ids(start).union(stmts_in(*e)));
}

proof fn lemma_push(s: Seq<u32>, x: u32)
    ensures
        forall|y: u32| s.push(x).contains(y) <==> s.contains(y) || y == x,
{
    assert forall|y: u32| s.push(x).contains(y) <==> s.contains(y) || y == x by {
        assert(s.push(x).last() == x);
        if s.contains(y) {
            let k = choose|k: int| 0 <= k < s.len() && s[k] == y;
            assert(s.push(x)[k] == y);
        }
    }
}

/// The statements of a body that can be left out when the names of the
/// two sets are read.
fn mark_dead_decls<'a>(body: &'a Expr, facts: &Facts<'a>, kept: &NameSet, read: &NameSet) -> (out: Vec<u32>)
    ensures
        ids(out@) == needless(*facts, kept@.union(read@), *body),
{
    let ghost all = kept@.union(read@);
    let places = reach(Walk::DeadDecls, Piece::Expr(body));
    let mut out: Vec<u32> = Vec::new();
    let mut i: usize = 0;
    while i < places.len()
        invariant
            i <= places@.len(),
            all == kept@.union(read@),
            forall|id: u32| #[trigger]
                out@.contains(id) <==> exists|k: int|
                    0 <= k < i && needless_at(*facts, all, #[trigger] places@[k], id),
        decreases places@.len() - i,
    {
        let ghost before = out@;
        let p = places[i];
        match p {
            Piece::Stmt(s) => {
                let set: Option<(&String, &'a Expr)> = match &s.kind {
                    StmtKind::ValDecl { name, value } | StmtKind::VarDecl { name, value } => Some((name, value)),
                    StmtKind::Assignment { target, value } | StmtKind::CompoundAssignment { target, value } => {
                        match ident_of(target) {
                            Some(name) => Some((name, value)),
                            None => None,
                        }
                    },
                    _ => None,
                };
                if let Some((name, value)) = set {
                    if !read.contains(name.as_str()) && !kept.contains(name.as_str()) && is_side_effect_free(facts.classify(value)) {
                        out.push(s.id.0);
                        proof {
                            lemma_push(before, s.id.0);
                        }
                    }
                }
            },
            Piece::Expr(e) | Piece::Tail(e) => {
                if let ExprKind::If { cond, then_branch, else_branch } = &e.kind {
                    match eval_const_bool(cond, facts.module_name, facts.sema) {
                        Some(val) => {
                            if !val {
                                push_stmts_in(then_branch, &mut out);
                            } else if let Some(b) = else_branch {
                                push_stmts_in(b, &mut out);
                            }
                        },
                        None => {},
                    }
                }
            },
        }
        assert forall|id: u32| out@.contains(id) <==> before.contains(id) || needless_at(*facts, all, p, id) by {
            assert(ids(out@).contains(id) == out@.contains(id));
            assert(ids(before).contains(id) == before.contains(id));
        }
        assert forall|id: u32| #[trigger]
            out@.contains(id) <==> exists|k: int|
                0 <= k < i + 1 && needless_at(*facts, all, #[trigger] places@[k], id) by {
            assert(before.contains(id) <==> exists|k: int|
                0 <= k < i && needless_at(*facts, all, #[trigger] places@[k], id));
            assert(needless_at(*facts, all, places@[i as int], id) == needless_at(*facts, all, p, id));
        }
        i = i + 1;
    }
    assert(ids(out@) =~= needless(*facts, all, *body));
    out
}

/// Number of items of the list outside the set.
spec fn left(s: Seq<u32>, dead: Set<u32>) -> nat
    decreases s.len(),
{
    if s.len() == 0 {
        0
    } else {
        left(s.drop_last(), dead) + if dead.contains(s.last()) {
            0nat
        } else {
            1nat
        }
    }
}

proof fn lemma_left(s: Seq<u32>, a: Set<u32>, b: Set<u32>)
    requires
        a.subset_of(b),
    ensures
        left(s, b) <= left(s, a),
        (exists|x: u32| s.contains(x) && b.contains(x) && !a.contains(x)) ==> left(s, b) < left(s, a),
    decreases s.len(),
{
    if s.len() > 0 {
        lemma_left(s.drop_last(), a, b);
        if exists|x: u32| s.contains(x) && b.contains(x) && !a.contains(x) {
            let x = choose|x: u32| s.contains(x) && b.contains(x) && !a.contains(x);
            if s.last() != x {
                let i = choose|i: int| 0 <= i < s.len() && s[i] == x;
                assert(s.drop_last()[i] == x);
            }
        }
    }
}

/// What is needless when more is read is needless when less is read.
proof fn lemma_needless_monotone(facts: Facts, a: Set<Seq<char>>, b: Set<Seq<char>>, body: Expr)
    requires
        a.subset_of(b),
    ensures
        needless(facts, b, body).subset_of(needless(facts, a, body)),
{
    let s = reached(Walk::DeadDecls, Piece::Expr(&body));
    assert forall|id: u32| needless(facts, b, body).contains(id) implies needless(facts, a, body).contains(id) by {
        let i = choose|i: int| 0 <= i < s.len() && needless_at(facts, b, #[trigger] s[i], id);
        assert(needless_at(facts, a, s[i], id));
    }
}

/// Adds the statements that can be left out of a function, round by round,
/// until nothing more can.
fn analyze_function_dce<'a>(body: &'a Expr, facts: &Facts<'a>, module_vars: &NameSet, report: &mut DeadCodeReport)
    ensures
        final(report).dead_stmts@ == least_settled(*facts, module_vars@, *body, old(report).dead_stmts@),
{
    let ghost start = report.dead_stmts@;
    let nothing = NameSet::new();
    let all = mark_dead_decls(body, facts, &nothing, &nothing);
    let mut changed: bool = true;
    while changed
        invariant
            nothing@ == Set::<Seq<char>>::empty(),
            ids(all@) == needless(*facts, nothing@.union(nothing@), *body),
            start.subset_of(report.dead_stmts@),
            forall|s: Set<u32>|
                start.subset_of(s) && #[trigger] settled(*facts, module_vars@, *body, s) ==> report.dead_stmts@.subset_of(s),
            !changed ==> settled(*facts, module_vars@, *body, report.dead_stmts@),
        decreases
            left(all@, report.dead_stmts@),
            if changed {
                1int
            } else {
                0int
            },
    {
        let ghost before = report.dead_stmts@;
        let mut read = NameSet::new();
        collect_reads(Piece::Expr(body), &report.dead_stmts, &mut read);
        assert(read@ =~= reads(before, Piece::Expr(body)));
        let ghost mattering = wanted(module_vars@, before, *body);
        assert(module_vars@.union(read@) =~= mattering);
        let found = mark_dead_decls(body, facts, module_vars, &read);
        changed = false;
        let mut i: usize = 0;
        while i < found.len()
            invariant
                i <= found@.len(),
                before.subset_of(report.dead_stmts@),
                forall|x: u32| #[trigger]
                    report.dead_stmts@.contains(x) <==> before.contains(x) || found@.take(i as int).contains(x),
                changed ==> exists|x: u32| found@.contains(x) && !before.contains(x),
                !changed ==> forall|x: u32| found@.take(i as int).contains(x) ==> before.contains(x),
            decreases found@.len() - i,
        {
            let ghost p = found@.take(i as int);
            let ghost now = report.dead_stmts@;
            assert(found@.take(i + 1) =~= p.push(found@[i as int]));
            proof {
                lemma_push(p, found@[i as int]);
            }
            assert(found@.contains(found@[i as int]));
            if report.dead_stmts.insert(found[i]) {
                changed = true;
                assert(!now.contains(found@[i as int]));
                assert(!before.contains(found@[i as int]));
            }
            i = i + 1;
        }
        assert(found@.take(i as int) =~= found@);
        proof {
            let now = report.dead_stmts@;
            let doomed = needless(*facts, mattering, *body);
            assert(doomed == ids(found@));
            assert(nothing@.union(nothing@) =~= Set::empty());
            lemma_needless_monotone(*facts, Set::empty(), mattering, *body);
            assert forall|s: Set<u32>| start.subset_of(s) && #[trigger] settled(
                *facts,
                module_vars@,
                *body,
                s,
            ) implies now.subset_of(s) by {
                assert(before.subset_of(s));
                law_fewer_reads_of_fewer_statements(before, s, Piece::Expr(body));
                lemma_needless_monotone(*facts, wanted(module_vars@, s, *body), mattering, *body);
                assert forall|x: u32| now.contains(x) implies s.contains(x) by {
                    if !before.contains(x) {
                        assert(doomed.contains(x));
                        assert(needless(*facts, wanted(module_vars@, s, *body), *body).contains(x));
                    }
                }
            }
            lemma_left(all@, before, now);
            if changed {
                let x = choose|x: u32| found@.contains(x) && !before.contains(x);
                assert(doomed.contains(x));
                assert(ids(all@).contains(x));
                assert(all@.contains(x) && now.contains(x) && !before.contains(x));
            } else {
                assert(now =~= before);
                assert forall|x: u32| doomed.contains(x) implies now.contains(x) by {}
            }
        }
    }
    assert(report.dead_stmts@ =~= least_settled(*facts, module_vars@, *body, start));
}

/// The statements of the module that can be left out.
pub fn dead_code_pass(
    module: &Module,
    module_name: &String,
    sema: &SemaResult,
    purity: &PurityTable,
    escape: &EscapeTable,
    cg: &CallGraph,
    def_use: &DefUseGraph,
) -> (report: DeadCodeReport)
    ensures
        report.dead_stmts@ == dead_upto(
            Facts { module_name, sema, purity, escape, func_name_to_id: &cg.name_to_func },
            def_use.global_vars@,
            cg.metas(*module),
            cg.metas(*module).len() as int,
        ),
{
    let facts = Facts { module_name, sema, purity, escape, func_name_to_id: &cg.name_to_func };
    let mut report = DeadCodeReport::new();
    let metas = cg.iter_funcs(module);
    let mut i: usize = 0;
    while i < metas.len()
        invariant
            i <= metas@.len(),
            report.dead_stmts@ == dead_upto(facts, def_use.global_vars@, metas@, i as int),
        decreases metas@.len() - i,
    {
        let (_func, meta) = metas[i];
        mark_unreachable(meta.body, &mut report);
        analyze_function_dce(meta.body, &facts, &def_use.global_vars, &mut report);
        i = i + 1;
    }
    report
}

/// What the analysis of a function leaves out is settled, holds what it started
/// with and what is never run, and no smaller such set exists.
pub proof fn law_dead_statements_are_settled(
    facts: Facts,
    globals: Set<Seq<char>>,
    start: Set<u32>,
    body: Expr,
    other: Set<u32>,
)
    ensures
        start.subset_of(dead_after(facts, globals, start, body)),
        unreachable_stmts(body).subset_of(dead_after(facts, globals, start, body)),
        settled(facts, globals, body, dead_after(facts, globals, start, body)),
        start.union(unreachable_stmts(body)).subset_of(other) && settled(facts, globals, body, other) ==> dead_after(
            facts,
            globals,
            start,
            body,
        ).subset_of(other),
{
    let from = start.union(unreachable_stmts(body));
    let d = dead_after(facts, globals, start, body);
    assert(from.subset_of(d));
    let doomed = needless(facts, wanted(globals, d, body), body);
    assert forall|id: u32| doomed.contains(id) implies d.contains(id) by {
        assert forall|s: Set<u32>| from.subset_of(s) && #[trigger] settled(facts, globals, body, s) implies s.contains(id) by {
            assert(d.subset_of(s));
            law_fewer_reads_of_fewer_statements(d, s, Piece::Expr(&body));
            lemma_needless_monotone(facts, wanted(globals, s, body), wanted(globals, d, body), body);
        }
    }
}

/// The statements behind the first one of a block that returns, breaks,
/// continues or throws are left out.
pub proof fn law_statements_behind_a_jump_are_dead(body: Expr, j: int, k: int)
    requires
        body.kind is Block,
        0 <= j < k < body.kind->stmts@.len(),
        ({
            let s = body.kind->stmts@[j].kind;
            s is Return || s is Break || s is Continue || s is Throw
        }),
    ensures
        unreachable_stmts(body).contains(body.kind->stmts@[k].id.0),
{
    let all = reached(Walk::Reachable, Piece::Expr(&body));
    let p = Piece::Expr(&body);
    crate::ast::walk::law_reached(Walk::Reachable, p, p);
    let i = choose|i: int| 0 <= i < all.len() && all[i] == p;
    let s = body.kind->stmts@;
    lemma_prefix_ends(s, j);
    assert(cut_off(s, s[k].id.0));
    assert(cut_off_at(all[i], s[k].id.0));
}

proof fn lemma_prefix_ends(s: Seq<Stmt>, j: int)
    requires
        0 <= j < s.len(),
        s[j].kind is Return || s[j].kind is Break || s[j].kind is Continue || s[j].kind is Throw,
    ensures
        live_prefix(s) <= j,
    decreases s.len(),
{
    if j < s.len() - 1 {
        assert(s.drop_last()[j] == s[j]);
        lemma_prefix_ends(s.drop_last(), j);
    }
}

/// A statement is needless only where it sets a variable whose value nobody
/// wants to a value without side effects, or stands in a branch that a known
/// condition rules out.
pub proof fn law_only_needless_statements_go(facts: Facts, read: Set<Seq<char>>, body: Expr, id: u32) -> (p: Piece<'static>)
    requires
        needless(facts, read, body).contains(id),
    ensures
        reached(Walk::DeadDecls, Piece::Expr(&body)).contains(p),
        match p {
            Piece::Stmt(s) => s.id.0 == id && match s.kind {
                StmtKind::ValDecl { name, value } | StmtKind::VarDecl { name, value } => !read.contains(name@)
                    && facts.side_effect(value) != SideEffect::Impure,
                StmtKind::Assignment { target, value } | StmtKind::CompoundAssignment { target, value } => (target.kind matches ExprKind::Ident(
                    name,
                ) && !read.contains(name@)) && facts.side_effect(value) != SideEffect::Impure,
                _ => false,
            },
            Piece::Expr(e) | Piece::Tail(e) => match e.kind {
                ExprKind::If { cond, then_branch, else_branch } => {
                    let known = const_condition(*facts.sema, facts.module_name@, *cond);
                    ||| known == Some(false) && stmts_in(*then_branch).contains(id)
                    ||| known == Some(true) && else_branch is Some && stmts_in(*(else_branch->0)).contains(id)
                },
                _ => false,
            },
        },
{
    let s = reached(Walk::DeadDecls, Piece::Expr(&body));
    let i = choose|i: int| 0 <= i < s.len() && needless_at(facts, read, #[trigger] s[i], id);
    assert(s.contains(s[i]));
    s[i]
}

/// A name that stands as an expression is read. What is read at a place is what
/// is read at the places below it, but for the statements that are left out and
/// the variables that assignments are made to.
pub proof fn law_reads_come_from_below<'a>(dead: Set<u32>, p: Piece<'a>, k: int, name: Seq<char>)
    ensures
        p matches Piece::Expr(e) ==> (e.kind matches ExprKind::Ident(n) ==> reads(dead, p).contains(n@)),
        p matches Piece::Stmt(s) ==> dead.contains(s.id.0) ==> reads(dead, p) == Set::<Seq<char>>::empty(),
        p matches Piece::Stmt(s) ==> !dead.contains(s.id.0) && !(s.kind is Assignment) && 0 <= k < stmt_parts::<'a>(*s).len() && reads(
            dead,
            stmt_parts::<'a>(*s)[k],
        ).contains(name) ==> reads(dead, p).contains(name),
        p matches Piece::Expr(e) ==> !(e.kind is Assign) && 0 <= k < expr_parts::<'a>(*e).len() && reads(
            dead,
            expr_parts::<'a>(*e)[k],
        ).contains(name) ==> reads(dead, p).contains(name),
        p matches Piece::Stmt(s) ==> (s.kind matches StmtKind::Assignment { target, value } ==> !dead.contains(s.id.0)
            && target.kind is Ident ==> reads(dead, p) == reads(dead, Piece::Expr(&value))),
{
    let st = read_steps(dead, p);
    if 0 <= k < st.len() && reads(dead, st[k]).contains(name) {
        lemma_read_below(dead, p, st.len(), k, name);
    }
    match p {
        Piece::Stmt(s) => {
            if dead.contains(s.id.0) {
                assert(reads_below(dead, p, 0) =~= Set::empty());
                assert(reads(dead, p) =~= Set::empty());
            } else if let StmtKind::Assignment { target, value } = s.kind {
                if target.kind is Ident {
                    assert(st.len() == 1 && st[0] == Piece::Expr(&value));
                    assert(reads_below(dead, p, 1) == reads_below(dead, p, 0).union(reads(dead, st[0])));
                    assert(reads(dead, p) =~= reads(dead, Piece::Expr(&value)));
                }
            }
        },
        _ => {},
    }
}

proof fn lemma_read_below<'a>(dead: Set<u32>, p: Piece<'a>, k: nat, i: int, name: Seq<char>)
    requires
        0 <= i < k <= read_steps(dead, p).len(),
        reads(dead, read_steps(dead, p)[i]).contains(name),
    ensures
        reads_below(dead, p, k).contains(name),
    decreases k,
{
    if i < k - 1 {
        lemma_read_below(dead, p, (k - 1) as nat, i, name);
    }
}

} // verus!
