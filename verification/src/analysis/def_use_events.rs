//! What a function body does to its variables, in the order in which the
//! source does it: where it reads one, and where it defines one.

use crate::ast::tree::{Expr, ExprId, ExprKind, MatchArm, Pattern, Stmt, StmtId, StmtKind, NO_STMT};
use crate::ast::walk::{
    expr_parts, expr_size, ident_of, is_ident, lemma_arms_size, lemma_parts_within, opt_pieces, parts, pattern_size,
    patterns_size, piece_size, push_parts, stmt_parts, within, Piece,
};
use vstd::prelude::*;

verus! {

#[derive(Clone, Copy)]
pub enum Event<'a> {
    /// The variable is read by the expression.
    Use { name: &'a String, at: ExprId },
    /// The statement defines a variable.
    Def { name: &'a String, stmt: StmtId, is_mutable: bool },
    /// The statement assigns a variable, which defines it anew unless it is a
    /// variable of the module.
    Assign { name: &'a String, stmt: StmtId },
}

/// A place where something may be read or defined.
#[derive(Clone, Copy)]
pub enum Spot<'a> {
    Piece(Piece<'a>),
    Pattern(&'a Pattern),
}

/// What happens at a place, in order: something is read or defined, or a place
/// inside has its turn.
#[derive(Clone, Copy)]
pub enum Action<'a> {
    Go(Spot<'a>),
    Emit(Event<'a>),
}

pub open spec fn spot_size(s: Spot) -> nat {
    match s {
        Spot::Piece(p) => piece_size(p),
        Spot::Pattern(p) => pattern_size(*p),
    }
}

pub open spec fn go<'a>(e: Expr) -> Action<'a> {
    Action::Go(Spot::Piece(Piece::Expr(&e)))
}

pub open spec fn go_all<'a>(s: Seq<Piece<'a>>) -> Seq<Action<'a>> {
    Seq::new(s.len(), |i: int| Action::Go(Spot::Piece(s[i])))
}

pub open spec fn go_patterns<'a>(s: Seq<Pattern>) -> Seq<Action<'a>> {
    Seq::new(s.len(), |i: int| Action::Go(Spot::Pattern(&s[i])))
}

pub open spec fn arm_actions<'a>(s: Seq<MatchArm>) -> Seq<Action<'a>>
    decreases s.len(),
{
    if s.len() == 0 {
        seq![]
    } else {
        arm_actions(s.drop_last()).push(Action::Go(Spot::Pattern(&s.last().pattern))) + go_all(
            opt_pieces(s.last().guard),
        ).push(go(s.last().body))
    }
}

pub open spec fn expr_actions<'a>(e: Expr) -> Seq<Action<'a>> {
    match e.kind {
        ExprKind::Ident(name) => seq![Action::Emit(Event::Use { name: &name, at: e.id })],
        ExprKind::Assign { target, value } => if is_ident(*target) {
            seq![go(*value)]
        } else {
            seq![go(*target), go(*value)]
        },
        ExprKind::CompoundAssign { target, value } => match target.kind {
            ExprKind::Ident(name) => seq![Action::Emit(Event::Use { name: &name, at: e.id }), go(*value)],
            _ => seq![go(*target), go(*value)],
        },
        ExprKind::Match { scrutinee, arms } => seq![go(*scrutinee)] + arm_actions(arms@),
        ExprKind::InlineTrait(_) => seq![],
        _ => go_all(expr_parts(e)),
    }
}

pub open spec fn stmt_actions<'a>(s: Stmt) -> Seq<Action<'a>> {
    match s.kind {
        StmtKind::ValDecl { name, value } => seq![
            go(value),
            Action::Emit(Event::Def { name: &name, stmt: s.id, is_mutable: false }),
        ],
        StmtKind::VarDecl { name, value } => seq![
            go(value),
            Action::Emit(Event::Def { name: &name, stmt: s.id, is_mutable: true }),
        ],
        StmtKind::Assignment { target, value } => match target.kind {
            ExprKind::Ident(name) => seq![go(value), Action::Emit(Event::Assign { name: &name, stmt: s.id })],
            _ => seq![go(value), go(target)],
        },
        StmtKind::CompoundAssignment { target, value } => match target.kind {
            ExprKind::Ident(name) => seq![
                Action::Emit(Event::Use { name: &name, at: target.id }),
                go(value),
                Action::Emit(Event::Assign { name: &name, stmt: s.id }),
            ],
            _ => seq![go(target), go(value)],
        },
        StmtKind::For { name, iterable, body } => seq![
            go(iterable),
            Action::Emit(Event::Def { name: &name, stmt: s.id, is_mutable: true }),
            go(body),
        ],
        StmtKind::LocalDecl { .. } => seq![],
        _ => go_all(stmt_parts(s)),
    }
}

pub open spec fn pattern_actions<'a>(p: Pattern) -> Seq<Action<'a>> {
    match p {
        Pattern::Variable { name } => seq![
            Action::Emit(Event::Def { name: &name, stmt: StmtId(NO_STMT), is_mutable: false }),
        ],
        Pattern::Constructor { patterns, .. } => go_patterns(patterns@),
        Pattern::Record { fields } => go_patterns(fields@),
        Pattern::OrPattern { left, right } => seq![
            Action::Go(Spot::Pattern(&*left)),
            Action::Go(Spot::Pattern(&*right)),
        ],
        Pattern::Guard { pattern, condition } => seq![Action::Go(Spot::Pattern(&*pattern)), go(*condition)],
        Pattern::Wildcard | Pattern::Literal => seq![],
    }
}

pub open spec fn actions<'a>(s: Spot<'a>) -> Seq<Action<'a>> {
    match s {
        Spot::Piece(Piece::Expr(e)) => expr_actions(*e),
        Spot::Piece(Piece::Tail(e)) => expr_actions(*e),
        Spot::Piece(Piece::Stmt(t)) => stmt_actions(*t),
        Spot::Pattern(p) => pattern_actions(*p),
    }
}

/// The places that have their turn in `s` are at most `n` large.
pub open spec fn turns_within(s: Seq<Action>, n: nat) -> bool {
    forall|i: int| 0 <= i < s.len() ==> ((#[trigger] s[i]) matches Action::Go(x) ==> spot_size(x) <= n)
}

proof fn lemma_arm_turns<'a>(s: Seq<MatchArm>, n: nat)
    requires
        crate::ast::walk::arms_size(s) <= n,
    ensures
        turns_within(arm_actions(s), n),
    decreases s.len(),
{
    if s.len() > 0 {
        lemma_arms_size(s, s.len() - 1);
        let a = s.last();
        lemma_arm_turns(s.drop_last(), n);
        let before: Seq<Action<'a>> = arm_actions(s.drop_last());
        let guard: Seq<Action<'a>> = go_all(opt_pieces(a.guard));
        assert(a.guard is Some ==> expr_size(a.guard->0) <= n);
        assert forall|i: int| 0 <= i < arm_actions(s).len() implies ((#[trigger] arm_actions(s)[i]) matches Action::Go(
            x,
        ) ==> spot_size(x) <= n) by {
            if i < before.len() {
                assert(arm_actions(s)[i] == before[i]);
            } else if i == before.len() {
                assert(arm_actions(s)[i] == Action::<'a>::Go(Spot::Pattern(&a.pattern)));
            } else if i <= before.len() + guard.len() {
                assert(arm_actions(s)[i] == guard[i - before.len() - 1]);
                assert(guard[i - before.len() - 1] == go(a.guard->0));
            } else {
                assert(arm_actions(s)[i] == go(a.body));
            }
        }
    }
}

proof fn lemma_patterns_size(s: Seq<Pattern>, i: int)
    requires
        0 <= i < s.len(),
    ensures
        pattern_size(s[i]) <= patterns_size(s),
    decreases s.len(),
{
    if i < s.len() - 1 {
        lemma_patterns_size(s.drop_last(), i);
    }
}

proof fn lemma_turn_is_smaller<'a>(s: Spot<'a>, i: int)
    requires
        0 <= i < actions(s).len(),
    ensures
        actions(s)[i] matches Action::Go(x) ==> spot_size(x) < spot_size(s),
{
    let n = (spot_size(s) - 1) as nat;
    match s {
        Spot::Piece(p) => {
            lemma_parts_within(p);
            match p {
                Piece::Expr(e) | Piece::Tail(e) => match e.kind {
                    ExprKind::Match { scrutinee, arms } => {
                        lemma_arm_turns(arms@, n);
                        if i > 0 {
                            assert(actions(s)[i] == arm_actions(arms@)[i - 1]);
                        }
                    },
                    _ => {
                        if actions(s) == go_all(parts(p)) {
                            assert(within(parts(p), n));
                            assert(piece_size(parts(p)[i]) <= n);
                        }
                    },
                },
                Piece::Stmt(t) => {
                    if actions(s) == go_all(parts(p)) {
                        assert(piece_size(parts(p)[i]) <= n);
                    }
                },
            }
        },
        Spot::Pattern(p) => match *p {
            Pattern::Constructor { patterns, .. } => {
                lemma_patterns_size(patterns@, i);
            },
            Pattern::Record { fields } => {
                lemma_patterns_size(fields@, i);
            },
            _ => {},
        },
    }
}

/// All that is read and defined at a place, in order.
pub open spec fn events<'a>(s: Spot<'a>) -> Seq<Event<'a>>
    decreases spot_size(s), actions(s).len() + 1,
{
    events_upto(s, actions(s).len())
}

/// What is read and defined by the first `k` actions at a place.
pub open spec fn events_upto<'a>(s: Spot<'a>, k: nat) -> Seq<Event<'a>>
    decreases spot_size(s), k,
    via events_upto_decreases
{
    if k == 0 || k > actions(s).len() {
        seq![]
    } else {
        events_upto(s, (k - 1) as nat) + match actions(s)[k - 1] {
            Action::Go(x) => events(x),
            Action::Emit(ev) => seq![ev],
        }
    }
}

#[via_fn]
proof fn events_upto_decreases<'a>(s: Spot<'a>, k: nat) {
    if k == 0 || k > actions(s).len() {
    } else {
        lemma_turn_is_smaller(s, k - 1);
    }
}

fn push_go<'a>(out: &mut Vec<Action<'a>>, e: &'a Expr)
    ensures
        final(out)@ == old(out)@.push(go(*e)),
{
    out.push(Action::Go(Spot::Piece(Piece::Expr(e))));
}

fn push_go_all<'a>(out: &mut Vec<Action<'a>>, s: &Vec<Piece<'a>>)
    ensures
        final(out)@ == old(out)@ + go_all(s@),
{
    let mut i: usize = 0;
    while i < s.len()
        invariant
            i <= s@.len(),
            out@ == old(out)@ + go_all(s@.take(i as int)),
        decreases s@.len() - i,
    {
        out.push(Action::Go(Spot::Piece(s[i])));
        i = i + 1;
        assert(out@ =~= old(out)@ + go_all(s@.take(i as int)));
    }
    assert(s@.take(i as int) =~= s@);
}

fn push_go_patterns<'a>(out: &mut Vec<Action<'a>>, s: &'a Vec<Pattern>)
    ensures
        final(out)@ == old(out)@ + go_patterns(s@),
{
    let mut i: usize = 0;
    while i < s.len()
        invariant
            i <= s@.len(),
            out@ == old(out)@ + go_patterns(s@.take(i as int)),
        decreases s@.len() - i,
    {
        out.push(Action::Go(Spot::Pattern(&s[i])));
        i = i + 1;
        assert(out@ =~= old(out)@ + go_patterns(s@.take(i as int)));
    }
    assert(s@.take(i as int) =~= s@);
}

fn push_arm_actions<'a>(out: &mut Vec<Action<'a>>, s: &'a Vec<MatchArm>)
    ensures
        final(out)@ == old(out)@ + arm_actions(s@),
{
    let mut i: usize = 0;
    assert(out@ =~= old(out)@ + arm_actions(s@.take(0)));
    while i < s.len()
        invariant
            i <= s@.len(),
            out@ == old(out)@ + arm_actions(s@.take(i as int)),
        decreases s@.len() - i,
    {
        assert(s@.take(i + 1).drop_last() =~= s@.take(i as int));
        out.push(Action::Go(Spot::Pattern(&s[i].pattern)));
        if let Some(g) = &s[i].guard {
            push_go(out, g);
        }
        push_go(out, &s[i].body);
        i = i + 1;
        assert(out@ =~= old(out)@ + arm_actions(s@.take(i as int)));
    }
    assert(s@.take(i as int) =~= s@);
}

fn push_part_actions<'a>(out: &mut Vec<Action<'a>>, p: Piece<'a>)
    ensures
        final(out)@ == old(out)@ + go_all(parts(p)),
{
    let mut below: Vec<Piece<'a>> = Vec::new();
    push_parts(&mut below, p);
    assert(below@ =~= parts(p));
    push_go_all(out, &below);
}

fn push_expr_actions<'a>(out: &mut Vec<Action<'a>>, e: &'a Expr)
    ensures
        final(out)@ == old(out)@ + expr_actions(*e),
{
    match &e.kind {
        ExprKind::Ident(name) => {
            out.push(Action::Emit(Event::Use { name, at: e.id }));
        },
        ExprKind::Assign { target, value } => {
            if ident_of(target).is_none() {
                push_go(out, target);
            }
            push_go(out, value);
        },
        ExprKind::CompoundAssign { target, value } => {
            match &target.kind {
                ExprKind::Ident(name) => {
                    out.push(Action::Emit(Event::Use { name, at: e.id }));
                },
                _ => {
                    push_go(out, target);
                },
            }
            push_go(out, value);
        },
        ExprKind::Match { scrutinee, arms } => {
            push_go(out, scrutinee);
            push_arm_actions(out, arms);
        },
        ExprKind::InlineTrait(_) => {},
        _ => push_part_actions(out, Piece::Expr(e)),
    }
    assert(out@ =~= old(out)@ + expr_actions(*e));
}

fn push_stmt_actions<'a>(out: &mut Vec<Action<'a>>, s: &'a Stmt)
    ensures
        final(out)@ == old(out)@ + stmt_actions(*s),
{
    match &s.kind {
        StmtKind::ValDecl { name, value } => {
            push_go(out, value);
            out.push(Action::Emit(Event::Def { name, stmt: s.id, is_mutable: false }));
        },
        StmtKind::VarDecl { name, value } => {
            push_go(out, value);
            out.push(Action::Emit(Event::Def { name, stmt: s.id, is_mutable: true }));
        },
        StmtKind::Assignment { target, value } => {
            push_go(out, value);
            match &target.kind {
                ExprKind::Ident(name) => {
                    out.push(Action::Emit(Event::Assign { name, stmt: s.id }));
                },
                _ => {
                    push_go(out, target);
                },
            }
        },
        StmtKind::CompoundAssignment { target, value } => match &target.kind {
            ExprKind::Ident(name) => {
                out.push(Action::Emit(Event::Use { name, at: target.id }));
                push_go(out, value);
                out.push(Action::Emit(Event::Assign { name, stmt: s.id }));
            },
            _ => {
                push_go(out, target);
                push_go(out, value);
            },
        },
        StmtKind::For { name, iterable, body } => {
            push_go(out, iterable);
            out.push(Action::Emit(Event::Def { name, stmt: s.id, is_mutable: true }));
            push_go(out, body);
        },
        StmtKind::LocalDecl { .. } => {},
        _ => push_part_actions(out, Piece::Stmt(s)),
    }
    assert(out@ =~= old(out)@ + stmt_actions(*s));
}

fn push_pattern_actions<'a>(out: &mut Vec<Action<'a>>, p: &'a Pattern)
    ensures
        final(out)@ == old(out)@ + pattern_actions(*p),
{
    match p {
        Pattern::Variable { name } => {
            out.push(Action::Emit(Event::Def { name, stmt: StmtId(NO_STMT), is_mutable: false }));
        },
        Pattern::Constructor { patterns, .. } => push_go_patterns(out, patterns),
        Pattern::Record { fields } => push_go_patterns(out, fields),
        Pattern::OrPattern { left, right } => {
            out.push(Action::Go(Spot::Pattern(left)));
            out.push(Action::Go(Spot::Pattern(right)));
        },
        Pattern::Guard { pattern, condition } => {
            out.push(Action::Go(Spot::Pattern(pattern)));
            push_go(out, condition);
        },
        Pattern::Wildcard | Pattern::Literal => {},
    }
    assert(out@ =~= old(out)@ + pattern_actions(*p));
}

fn push_actions<'a>(out: &mut Vec<Action<'a>>, s: Spot<'a>)
    ensures
        final(out)@ == old(out)@ + actions(s),
{
    match s {
        Spot::Piece(Piece::Expr(e)) => push_expr_actions(out, e),
        Spot::Piece(Piece::Tail(e)) => push_expr_actions(out, e),
        Spot::Piece(Piece::Stmt(t)) => push_stmt_actions(out, t),
        Spot::Pattern(p) => push_pattern_actions(out, p),
    }
}

/// Lists what is read and defined at a place behind `out`.
pub fn collect_def_use<'a>(out: &mut Vec<Event<'a>>, s: Spot<'a>)
    ensures
        final(out)@ == old(out)@ + events(s),
    decreases spot_size(s),
{
    let mut todo: Vec<Action<'a>> = Vec::new();
    push_actions(&mut todo, s);
    assert(todo@ =~= actions(s));
    assert(out@ =~= old(out)@ + events_upto(s, 0));
    let mut i: usize = 0;
    while i < todo.len()
        invariant
            i <= todo@.len(),
            todo@ == actions(s),
            out@ == old(out)@ + events_upto(s, i as nat),
        decreases todo@.len() - i,
    {
        proof {
            lemma_turn_is_smaller(s, i as int);
        }
        match todo[i] {
            Action::Go(x) => collect_def_use(out, x),
            Action::Emit(ev) => out.push(ev),
        }
        i = i + 1;
        assert(out@ =~= old(out)@ + events_upto(s, i as nat));
    }
}

// ---- laws ------------------------------------------------------------------

proof fn lemma_one_more<'a>(s: Spot<'a>, k: nat)
    requires
        0 < k <= actions(s).len(),
    ensures
        events_upto(s, k) == events_upto(s, (k - 1) as nat) + match actions(s)[k - 1] {
            Action::Go(x) => events(x),
            Action::Emit(ev) => seq![ev],
        },
{
}

/// In which order a statement reads and defines: the value of a declaration or
/// assignment is read before the variable is defined; a compound assignment
/// reads the variable first; a loop over values reads them, defines its
/// variable, and then runs its body.
pub proof fn law_values_come_before_definitions(s: Stmt)
    ensures
        s.kind matches StmtKind::ValDecl { name, value } ==> events(Spot::Piece(Piece::Stmt(&s))) == events(
            Spot::Piece(Piece::Expr(&value)),
        ).push(Event::Def { name: &name, stmt: s.id, is_mutable: false }),
        s.kind matches StmtKind::VarDecl { name, value } ==> events(Spot::Piece(Piece::Stmt(&s))) == events(
            Spot::Piece(Piece::Expr(&value)),
        ).push(Event::Def { name: &name, stmt: s.id, is_mutable: true }),
        s.kind matches StmtKind::Assignment { target, value } ==> (target.kind matches ExprKind::Ident(name) ==> events(
            Spot::Piece(Piece::Stmt(&s)),
        ) == events(Spot::Piece(Piece::Expr(&value))).push(Event::Assign { name: &name, stmt: s.id })),
        s.kind matches StmtKind::CompoundAssignment { target, value } ==> (target.kind matches ExprKind::Ident(name)
            ==> events(Spot::Piece(Piece::Stmt(&s))) == (seq![Event::Use { name: &name, at: target.id }] + events(
            Spot::Piece(Piece::Expr(&value)),
        )).push(Event::Assign { name: &name, stmt: s.id })),
        s.kind matches StmtKind::For { name, iterable, body } ==> events(Spot::Piece(Piece::Stmt(&s))) == events(
            Spot::Piece(Piece::Expr(&iterable)),
        ).push(Event::Def { name: &name, stmt: s.id, is_mutable: true }) + events(Spot::Piece(Piece::Expr(&body))),
        s.kind is LocalDecl ==> events(Spot::Piece(Piece::Stmt(&s))).len() == 0,
{
    let p = Spot::Piece(Piece::Stmt(&s));
    assert(events_upto(p, 0) =~= seq![]);
    if actions(p).len() >= 1 {
        lemma_one_more(p, 1);
    }
    if actions(p).len() >= 2 {
        lemma_one_more(p, 2);
    }
    if actions(p).len() >= 3 {
        lemma_one_more(p, 3);
    }
    let all = events(p);
    match s.kind {
        StmtKind::ValDecl { name, value } => {
            assert(all =~= events(Spot::Piece(Piece::Expr(&value))).push(
                Event::Def { name: &name, stmt: s.id, is_mutable: false },
            ));
        },
        StmtKind::VarDecl { name, value } => {
            assert(all =~= events(Spot::Piece(Piece::Expr(&value))).push(
                Event::Def { name: &name, stmt: s.id, is_mutable: true },
            ));
        },
        StmtKind::Assignment { target, value } => {
            if let ExprKind::Ident(name) = target.kind {
                assert(all =~= events(Spot::Piece(Piece::Expr(&value))).push(Event::Assign { name: &name, stmt: s.id }));
            }
        },
        StmtKind::CompoundAssignment { target, value } => {
            if let ExprKind::Ident(name) = target.kind {
                assert(all =~= (seq![Event::Use { name: &name, at: target.id }] + events(
                    Spot::Piece(Piece::Expr(&value)),
                )).push(Event::Assign { name: &name, stmt: s.id }));
            }
        },
        StmtKind::For { name, iterable, body } => {
            assert(all =~= events(Spot::Piece(Piece::Expr(&iterable))).push(
                Event::Def { name: &name, stmt: s.id, is_mutable: true },
            ) + events(Spot::Piece(Piece::Expr(&body))));
        },
        _ => {},
    }
}

/// A variable that stands as an expression is read there; one that an
/// assignment expression sets is not, but one that a compound assignment
/// changes is. The methods of an inline trait read nothing here.
pub proof fn law_names_are_read(e: Expr)
    ensures
        e.kind matches ExprKind::Ident(name) ==> events(Spot::Piece(Piece::Expr(&e))) == seq![
            Event::Use { name: &name, at: e.id },
        ],
        e.kind matches ExprKind::Assign { target, value } ==> target.kind is Ident ==> events(
            Spot::Piece(Piece::Expr(&e)),
        ) == events(Spot::Piece(Piece::Expr(&*value))),
        e.kind matches ExprKind::CompoundAssign { target, value } ==> (target.kind matches ExprKind::Ident(name)
            ==> events(Spot::Piece(Piece::Expr(&e))) == seq![Event::Use { name: &name, at: e.id }] + events(
            Spot::Piece(Piece::Expr(&*value)),
        )),
        e.kind is InlineTrait ==> events(Spot::Piece(Piece::Expr(&e))).len() == 0,
{
    let p = Spot::Piece(Piece::Expr(&e));
    let all = events(p);
    match e.kind {
        ExprKind::Ident(name) => {
            lemma_one_more(p, 1);
            assert(events_upto(p, 0) =~= seq![]);
            assert(all =~= seq![Event::Use { name: &name, at: e.id }]);
        },
        ExprKind::Assign { target, value } => {
            if target.kind is Ident {
                lemma_one_more(p, 1);
                assert(events_upto(p, 0) =~= seq![]);
                assert(all =~= events(Spot::Piece(Piece::Expr(&*value))));
            }
        },
        ExprKind::CompoundAssign { target, value } => {
            if let ExprKind::Ident(name) = target.kind {
                lemma_one_more(p, 1);
                lemma_one_more(p, 2);
                assert(events_upto(p, 0) =~= seq![]);
                assert(all =~= seq![Event::Use { name: &name, at: e.id }] + events(Spot::Piece(Piece::Expr(&*value))));
            }
        },
        _ => {},
    }
}

/// What is read and defined at a place inside another one is read and defined
/// there.
pub proof fn law_parts_have_their_turn<'a>(s: Spot<'a>, i: int, ev: Event<'a>)
    requires
        0 <= i < actions(s).len(),
        actions(s)[i] matches Action::Go(x) && events(x).contains(ev),
    ensures
        events(s).contains(ev),
{
    lemma_turn(s, actions(s).len(), i, ev);
}

proof fn lemma_turn<'a>(s: Spot<'a>, k: nat, i: int, ev: Event<'a>)
    requires
        0 <= i < k <= actions(s).len(),
        actions(s)[i] matches Action::Go(x) && events(x).contains(ev),
    ensures
        events_upto(s, k).contains(ev),
    decreases k,
{
    lemma_one_more(s, k);
    let a = events_upto(s, (k - 1) as nat);
    let b = match actions(s)[k - 1] {
        Action::Go(x) => events(x),
        Action::Emit(ev) => seq![ev],
    };
    if i < k - 1 {
        lemma_turn(s, (k - 1) as nat, i, ev);
        let j = choose|j: int| 0 <= j < a.len() && a[j] == ev;
        assert((a + b)[j] == ev);
    } else {
        let j = choose|j: int| 0 <= j < b.len() && b[j] == ev;
        assert((a + b)[a.len() + j] == ev);
    }
}

/// Except for assignments to variables, matches and inline traits, an expression
/// reads and defines what each of its parts does.
pub proof fn law_expressions_read_their_parts<'a>(e: Expr, k: int, ev: Event<'a>)
    requires
        !(e.kind is Ident) && !(e.kind is InlineTrait) && !(e.kind is Match),
        e.kind matches ExprKind::Assign { target, .. } ==> !(target.kind is Ident),
        e.kind matches ExprKind::CompoundAssign { target, .. } ==> !(target.kind is Ident),
        0 <= k < expr_parts::<'a>(e).len(),
        events(Spot::Piece(expr_parts::<'a>(e)[k])).contains(ev),
    ensures
        events(Spot::Piece(Piece::Expr(&e))).contains(ev),
{
    let s = Spot::Piece(Piece::Expr(&e));
    assert(actions(s)[k] == Action::Go(Spot::Piece(expr_parts::<'a>(e)[k])));
    law_parts_have_their_turn(s, k, ev);
}

} // verus!
