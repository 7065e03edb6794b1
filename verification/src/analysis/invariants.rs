//! Expressions in a loop that have the same value in every round.

use super::effects::{is_side_effect_free, Facts, SideEffect};
use super::lambda_escape::name_at;
use crate::ast::binds::{
    bindings_at, bindings_upto, law_lists_bind_what_places_bind, law_places_bind_variables, law_stores_go_to_the_root,
    list_bindings, Binding,
};
use crate::ast::tree::{Expr, ExprId, ExprKind, Stmt, StmtKind};
use crate::ast::walk::{ident_of, law_reached, reach, reached, steps, Piece, Walk};
use crate::fx::NameSet;
use vstd::prelude::*;

verus! {

/// Whether the expression has no parts.
pub open spec fn leaf(e: Expr) -> bool {
    match e.kind {
        ExprKind::IntLit
        | ExprKind::FloatLit
        | ExprKind::BoolLit(_)
        | ExprKind::CharLit
        | ExprKind::StrLit
        | ExprKind::NullLit
        | ExprKind::VoidLit
        | ExprKind::Ident(_) => true,
        _ => false,
    }
}

/// Whether one of the bindings is to the name.
pub open spec fn binds_name(bs: Seq<Binding>, name: Seq<char>) -> bool {
    exists|i: int| 0 <= i < bs.len() && (#[trigger] bs[i]).name@ == name
}

/// The variables that a loop defines or changes, in whole or in part.
pub open spec fn modified_vars(p: Piece) -> Set<Seq<char>> {
    let s = reached(Walk::Full, p);
    Set::new(|name: Seq<char>| binds_name(bindings_upto(s, s.len() as int), name))
}

/// Whether the expression refers to the variable.
pub open spec fn refers_to(e: Expr, name: Seq<char>) -> bool {
    let s = reached(Walk::Inner, Piece::Expr(&e));
    exists|i: int| 0 <= i < s.len() && name_at(#[trigger] s[i]) == Some(name)
}

/// Whether the expression has the same value in every round of a loop that
/// changes those variables: it has parts, no side effects, and refers to none
/// of them.
pub open spec fn invariant_in(facts: Facts, modified: Set<Seq<char>>, e: Expr) -> bool {
    &&& !leaf(e)
    &&& facts.side_effect(e) != SideEffect::Impure
    &&& forall|name: Seq<char>| modified.contains(name) ==> !#[trigger] refers_to(e, name)
}

/// The expressions among the first `n` places that have the same value in every
/// round.
pub open spec fn found_upto(facts: Facts, modified: Set<Seq<char>>, s: Seq<Piece>, n: int) -> Seq<ExprId>
    decreases n,
{
    if n <= 0 {
        seq![]
    } else {
        let rest = found_upto(facts, modified, s, n - 1);
        match s[n - 1] {
            Piece::Expr(e) | Piece::Tail(e) => if invariant_in(facts, modified, *e) {
                rest.push(e.id)
            } else {
                rest
            },
            Piece::Stmt(_) => rest,
        }
    }
}

/// The expression itself, where it has the same value in every round.
pub open spec fn if_invariant(facts: Facts, modified: Set<Seq<char>>, e: Expr) -> Seq<ExprId> {
    if invariant_in(facts, modified, e) {
        seq![e.id]
    } else {
        seq![]
    }
}

pub open spec fn found_in(facts: Facts, modified: Set<Seq<char>>, body: Expr) -> Seq<ExprId> {
    let s = reached(Walk::Inner, Piece::Expr(&body));
    found_upto(facts, modified, s, s.len() as int)
}

/// What a loop that stands at a place has to offer: its condition or what it
/// runs over, then what is in its body.
pub open spec fn offered_at(facts: Facts, p: Piece) -> Seq<ExprId> {
    match p {
        Piece::Stmt(s) => match s.kind {
            StmtKind::While { condition: x, body } | StmtKind::For { iterable: x, body, .. } => if_invariant(
                facts,
                modified_vars(p),
                x,
            ) + found_in(facts, modified_vars(p), body),
            StmtKind::Loop { body } => found_in(facts, modified_vars(p), body),
            _ => seq![],
        },
        _ => seq![],
    }
}

pub open spec fn offered_upto(facts: Facts, s: Seq<Piece>, n: int) -> Seq<ExprId>
    decreases n,
{
    if n <= 0 {
        seq![]
    } else {
        offered_upto(facts, s, n - 1) + offered_at(facts, s[n - 1])
    }
}

/// What the loops of a body have to offer, outer loops before inner ones.
pub open spec fn loop_invariants(facts: Facts, body: Expr) -> Seq<ExprId> {
    let s = reached(Walk::Loops, Piece::Expr(&body));
    offered_upto(facts, s, s.len() as int)
}

fn is_leaf(e: &Expr) -> (r: bool)
    ensures
        r == leaf(*e),
{
    match &e.kind {
        ExprKind::IntLit
        | ExprKind::FloatLit
        | ExprKind::BoolLit(_)
        | ExprKind::CharLit
        | ExprKind::StrLit
        | ExprKind::NullLit
        | ExprKind::VoidLit
        | ExprKind::Ident(_) => true,
        _ => false,
    }
}

/// The variables that a loop defines or changes, in whole or in part.
pub fn collect_modified_vars<'a>(p: Piece<'a>) -> (modified: NameSet)
    ensures
        modified@ == modified_vars(p),
{
    let places = reach(Walk::Full, p);
    let bs = list_bindings(&places);
    let mut modified = NameSet::new();
    let mut i: usize = 0;
    while i < bs.len()
        invariant
            i <= bs@.len(),
            forall|name: Seq<char>| #[trigger]
                modified@.contains(name) <==> exists|k: int| 0 <= k < i && (#[trigger] bs@[k]).name@ == name,
        decreases bs@.len() - i,
    {
        let ghost before = modified@;
        modified.insert(bs[i].name.clone());
        i = i + 1;
        assert forall|name: Seq<char>| #[trigger] modified@.contains(name) <==> exists|k: int|
            0 <= k < i && (#[trigger] bs@[k]).name@ == name by {
            assert(before.contains(name) <==> exists|k: int| 0 <= k < i - 1 && (#[trigger] bs@[k]).name@ == name);
            if bs@[i - 1].name@ == name {
                assert(bs@[i - 1].name@ == name);
            }
        }
    }
    assert(modified@ =~= modified_vars(p));
    modified
}

/// Whether the expression refers to a variable of the set.
fn refers_to_one(e: &Expr, modified: &NameSet) -> (r: bool)
    ensures
        r == exists|name: Seq<char>| modified@.contains(name) && #[trigger] refers_to(*e, name),
{
    let places = reach(Walk::Inner, Piece::Expr(e));
    let mut i: usize = 0;
    while i < places.len()
        invariant
            i <= places@.len(),
            places@ == reached(Walk::Inner, Piece::Expr(e)),
            forall|k: int|
                0 <= k < i ==> (name_at(#[trigger] places@[k]) matches Some(n) ==> !modified@.contains(n)),
        decreases places@.len() - i,
    {
        if let Piece::Expr(x) | Piece::Tail(x) = places[i] {
            if let Some(name) = ident_of(x) {
                if modified.contains(name.as_str()) {
                    assert(name_at(places@[i as int]) == Some(name@));
                    assert(refers_to(*e, name@));
                    return true;
                }
            }
        }
        i = i + 1;
    }
    assert forall|name: Seq<char>| modified@.contains(name) implies !#[trigger] refers_to(*e, name) by {
        if refers_to(*e, name) {
            let k = choose|k: int| 0 <= k < places@.len() && name_at(#[trigger] places@[k]) == Some(name);
            assert(name_at(places@[k]) matches Some(n) ==> !modified@.contains(n));
        }
    }
    false
}

fn is_invariant<'a>(e: &'a Expr, facts: &Facts<'a>, modified: &NameSet) -> (r: bool)
    ensures
        r == invariant_in(*facts, modified@, *e),
{
    !is_leaf(e) && is_side_effect_free(facts.classify(e)) && !refers_to_one(e, modified)
}

fn try_add_invariant<'a>(e: &'a Expr, facts: &Facts<'a>, modified: &NameSet, out: &mut Vec<ExprId>)
    ensures
        final(out)@ == old(out)@ + if_invariant(*facts, modified@, *e),
{
    if is_invariant(e, facts, modified) {
        out.push(e.id);
    }
    assert(out@ =~= old(out)@ + if_invariant(*facts, modified@, *e));
}

fn collect_invariant_candidates<'a>(body: &'a Expr, facts: &Facts<'a>, modified: &NameSet, out: &mut Vec<ExprId>)
    ensures
        final(out)@ == old(out)@ + found_in(*facts, modified@, *body),
{
    let ghost start = out@;
    let places = reach(Walk::Inner, Piece::Expr(body));
    let mut i: usize = 0;
    assert(out@ =~= start + found_upto(*facts, modified@, places@, 0));
    while i < places.len()
        invariant
            i <= places@.len(),
            out@ == start + found_upto(*facts, modified@, places@, i as int),
        decreases places@.len() - i,
    {
        if let Piece::Expr(e) | Piece::Tail(e) = places[i] {
            if is_invariant(e, facts, modified) {
                out.push(e.id);
            }
        }
        i = i + 1;
        assert(out@ =~= start + found_upto(*facts, modified@, places@, i as int));
    }
}

/// The expressions in the loops of a body that have the same value in every
/// round.
pub fn collect_loop_invariants<'a>(body: &'a Expr, facts: &Facts<'a>) -> (out: Vec<ExprId>)
    ensures
        out@ == loop_invariants(*facts, *body),
{
    let places = reach(Walk::Loops, Piece::Expr(body));
    let mut out: Vec<ExprId> = Vec::new();
    let mut i: usize = 0;
    while i < places.len()
        invariant
            i <= places@.len(),
            out@ == offered_upto(*facts, places@, i as int),
        decreases places@.len() - i,
    {
        let ghost before = out@;
        if let Piece::Stmt(s) = places[i] {
            match &s.kind {
                StmtKind::While { condition: x, body: b } | StmtKind::For { iterable: x, body: b, .. } => {
                    let modified = collect_modified_vars(places[i]);
                    try_add_invariant(x, facts, &modified, &mut out);
                    collect_invariant_candidates(b, facts, &modified, &mut out);
                },
                StmtKind::Loop { body: b } => {
                    let modified = collect_modified_vars(places[i]);
                    collect_invariant_candidates(b, facts, &modified, &mut out);
                },
                _ => {},
            }
        }
        i = i + 1;
        assert(out@ =~= offered_upto(*facts, places@, i as int));
    }
    out
}

/// Whether the expression of that number stands at the place and has the same
/// value in every round of a loop that changes those variables.
pub open spec fn steady_at(facts: Facts, modified: Set<Seq<char>>, p: Piece, id: ExprId) -> bool {
    match p {
        Piece::Expr(e) | Piece::Tail(e) => e.id == id && invariant_in(facts, modified, *e),
        Piece::Stmt(_) => false,
    }
}

proof fn lemma_found(facts: Facts, modified: Set<Seq<char>>, s: Seq<Piece>, n: int, id: ExprId)
    requires
        0 <= n <= s.len(),
        found_upto(facts, modified, s, n).contains(id),
    ensures
        exists|k: int| 0 <= k < n && steady_at(facts, modified, #[trigger] s[k], id),
    decreases n,
{
    if n > 0 {
        let rest = found_upto(facts, modified, s, n - 1);
        let all = found_upto(facts, modified, s, n);
        let k = choose|k: int| 0 <= k < all.len() && all[k] == id;
        if k < rest.len() {
            assert(rest[k] == id);
            lemma_found(facts, modified, s, n - 1, id);
        } else {
            assert(steady_at(facts, modified, s[n - 1], id));
        }
    }
}

/// What a loop has to offer stands in the loop, has no side effects and refers
/// to no variable that the loop defines or changes.
pub proof fn law_offers_are_steady(facts: Facts, p: Piece, id: ExprId)
    requires
        offered_at(facts, p).contains(id),
    ensures
        ({
            let s = reached(Walk::Inner, p);
            exists|k: int| 0 <= k < s.len() && steady_at(facts, modified_vars(p), #[trigger] s[k], id)
        }),
{
    let modified = modified_vars(p);
    let s = reached(Walk::Inner, p);
    match p {
        Piece::Stmt(t) => match t.kind {
            StmtKind::While { condition: x, body } | StmtKind::For { iterable: x, body, .. } => {
                let a = if_invariant(facts, modified, x);
                let b = found_in(facts, modified, body);
                let k = choose|k: int| 0 <= k < (a + b).len() && (a + b)[k] == id;
                if k < a.len() {
                    let q = steps(Walk::Inner, p)[0];
                    assert(q == Piece::Expr(&x));
                    law_reached(Walk::Inner, q, q);
                    law_reached(Walk::Inner, p, q);
                    let j = choose|j: int| 0 <= j < s.len() && s[j] == q;
                    assert(steady_at(facts, modified, s[j], id));
                } else {
                    assert(b[k - a.len()] == id);
                    lemma_offered_by_body(facts, p, 1, body, id);
                }
            },
            StmtKind::Loop { body } => {
                lemma_offered_by_body(facts, p, 0, body, id);
            },
            _ => {},
        },
        _ => {},
    }
}

proof fn lemma_offered_by_body(facts: Facts, p: Piece, i: int, body: Expr, id: ExprId)
    requires
        0 <= i < steps(Walk::Inner, p).len(),
        steps(Walk::Inner, p)[i] == Piece::Expr(&body),
        found_in(facts, modified_vars(p), body).contains(id),
    ensures
        ({
            let s = reached(Walk::Inner, p);
            exists|k: int| 0 <= k < s.len() && steady_at(facts, modified_vars(p), #[trigger] s[k], id)
        }),
{
    let modified = modified_vars(p);
    let s = reached(Walk::Inner, p);
    let q = steps(Walk::Inner, p)[i];
    let below = reached(Walk::Inner, q);
    lemma_found(facts, modified, below, below.len() as int, id);
    let k = choose|k: int| 0 <= k < below.len() && steady_at(facts, modified, #[trigger] below[k], id);
    assert(below.contains(below[k]));
    law_reached(Walk::Inner, p, below[k]);
    let j = choose|j: int| 0 <= j < s.len() && s[j] == below[k];
    assert(steady_at(facts, modified, s[j], id));
}

/// A variable that is declared or assigned anywhere in a loop, or that a loop in
/// it runs over values with, changes with the round.
pub proof fn law_set_variables_change(p: Piece, s: Stmt, name: String)
    requires
        reached(Walk::Full, p).contains(Piece::Stmt(&s)),
        ({
            ||| s.kind matches StmtKind::ValDecl { name: n, .. } && n == name
            ||| s.kind matches StmtKind::VarDecl { name: n, .. } && n == name
            ||| s.kind matches StmtKind::For { name: n, .. } && n == name
            ||| s.kind matches StmtKind::Assignment { target, .. } && target.kind == ExprKind::Ident(name)
            ||| s.kind matches StmtKind::CompoundAssignment { target, .. } && target.kind == ExprKind::Ident(name)
            ||| s.kind matches StmtKind::FieldAssignment { object, .. } && object.kind == ExprKind::Ident(name)
        }),
    ensures
        modified_vars(p).contains(name@),
{
    let all = reached(Walk::Full, p);
    let q = Piece::Stmt(&s);
    law_places_bind_variables(s, arbitrary());
    let value = match s.kind {
        StmtKind::ValDecl { value, .. } | StmtKind::VarDecl { value, .. } => value,
        StmtKind::For { iterable, .. } => iterable,
        StmtKind::Assignment { target, value }
        | StmtKind::CompoundAssignment { target, value }
        | StmtKind::FieldAssignment { object: target, value } => {
            law_stores_go_to_the_root(target);
            value
        },
        _ => arbitrary(),
    };
    lemma_bound_in_loop(p, q, Binding { name: &name, value: &value });
}

/// So does a variable that an assignment expression sets.
pub proof fn law_assigned_variables_change(p: Piece, e: Expr, name: String)
    requires
        reached(Walk::Full, p).contains(Piece::Expr(&e)),
        ({
            ||| e.kind matches ExprKind::Assign { target, .. } && target.kind == ExprKind::Ident(name)
            ||| e.kind matches ExprKind::CompoundAssign { target, .. } && target.kind == ExprKind::Ident(name)
        }),
    ensures
        modified_vars(p).contains(name@),
{
    law_places_bind_variables(arbitrary(), e);
    let value = match e.kind {
        ExprKind::Assign { target, value } | ExprKind::CompoundAssign { target, value } => {
            law_stores_go_to_the_root(*target);
            *value
        },
        _ => arbitrary(),
    };
    lemma_bound_in_loop(p, Piece::Expr(&e), Binding { name: &name, value: &value });
}

proof fn lemma_bound_in_loop(p: Piece, q: Piece, b: Binding)
    requires
        reached(Walk::Full, p).contains(q),
        bindings_at(q).contains(b),
    ensures
        modified_vars(p).contains(b.name@),
{
    let s = reached(Walk::Full, p);
    let n = s.len() as int;
    let i = choose|i: int| 0 <= i < s.len() && s[i] == q;
    assert(bindings_at(s[i]).contains(b));
    law_lists_bind_what_places_bind(s, n, b);
    let bs = bindings_upto(s, n);
    let k = choose|k: int| 0 <= k < bs.len() && bs[k] == b;
    assert(bs[k].name@ == b.name@);
}

/// A hoisted expression stands in the loop, is no literal or variable alone, has
/// no side effects, and names no variable that changes in the loop.
pub proof fn law_hoisted_expressions_do_not_change(facts: Facts, p: Piece, id: ExprId) -> (e: Expr)
    requires
        offered_at(facts, p).contains(id),
    ensures
        e.id == id,
        reached(Walk::Inner, p).contains(Piece::Expr(&e)) || reached(Walk::Inner, p).contains(Piece::Tail(&e)),
        !(e.kind is Ident) && !(e.kind is IntLit) && !(e.kind is StrLit) && !(e.kind is BoolLit),
        facts.side_effect(e) != SideEffect::Impure,
        forall|x: Expr|
            #[trigger] reached(Walk::Inner, Piece::Expr(&e)).contains(Piece::Expr(&x)) && x.kind is Ident
                ==> !modified_vars(p).contains(x.kind->Ident_0@),
{
    law_offers_are_steady(facts, p, id);
    let s = reached(Walk::Inner, p);
    let k = choose|k: int| 0 <= k < s.len() && steady_at(facts, modified_vars(p), #[trigger] s[k], id);
    assert(s.contains(s[k]));
    match s[k] {
        Piece::Expr(e) | Piece::Tail(e) => {
            let t = reached(Walk::Inner, Piece::Expr(e));
            assert forall|x: Expr| #[trigger] t.contains(Piece::Expr(&x)) && x.kind is Ident implies !modified_vars(
                p,
            ).contains(x.kind->Ident_0@) by {
                let name = x.kind->Ident_0;
                let i = choose|i: int| 0 <= i < t.len() && t[i] == Piece::Expr(&x);
                assert(name_at(t[i]) == Some(name@));
                assert(refers_to(*e, name@));
            }
            *e
        },
        Piece::Stmt(_) => arbitrary(),
    }
}

} // verus!
