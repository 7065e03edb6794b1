//! Whether evaluating an expression does more than give a value.

use super::tables::{EscapeInfo, EscapeTable, FuncId, Purity, PurityTable};
use crate::ast::sema::{method_target, resolve_method_mangled, SemaResult};
use crate::ast::tree::{Expr, ExprId, ExprKind, Stmt, StmtKind};
use crate::ast::walk::{ident_of, law_reached, law_reached_is_transitive, law_walks_enter_statements, reach, reached, Piece, Walk};
use crate::fx::NameMap;
use crate::names::{owner_part, split_member};
use vstd::prelude::*;

verus! {

#[derive(Debug, Clone, Copy, PartialEq, Eq, Structural)]
pub enum SideEffect {
    Pure,
    Impure,
    /// It allocates, and the allocation stays within the function.
    AllocNoEscape,
}

/// What the classification of an expression rests on.
#[derive(Clone, Copy)]
pub struct Facts<'a> {
    pub module_name: &'a String,
    pub sema: &'a SemaResult,
    pub purity: &'a PurityTable,
    pub escape: &'a EscapeTable,
    pub func_name_to_id: &'a NameMap,
}

impl<'a> Facts<'a> {
    /// Whether the name is that of a function known to be pure.
    pub open spec fn pure_name(self, name: Seq<char>) -> bool {
        &&& self.func_name_to_id@.contains_key(name)
        &&& self.purity.of(FuncId(self.func_name_to_id@[name])) == Some(Purity::Pure)
    }

    /// Whether a call of `callee` runs a pure function.
    pub open spec fn pure_call(self, callee: Expr) -> bool {
        match callee.kind {
            ExprKind::Ident(name) => !self.sema.effectful_fn(name@) && self.pure_name(name@),
            _ => false,
        }
    }

    /// Whether a call of the method on `recv` runs a pure method.
    pub open spec fn pure_method(self, recv: Expr, method: Seq<char>) -> bool {
        match method_target(*self.sema, self.module_name@, recv, method) {
            Some(target) => !self.sema.effectful_method(owner_part(target), method) && self.pure_name(target),
            None => false,
        }
    }

    /// What an allocation at `id` does.
    pub open spec fn alloc_effect(self, id: ExprId) -> SideEffect {
        if self.escape.of(id) == Some(EscapeInfo::NoEscape) {
            SideEffect::AllocNoEscape
        } else {
            SideEffect::Impure
        }
    }

    /// What `e` does by itself, its parts left aside.
    pub open spec fn own_effect(self, e: Expr) -> SideEffect {
        match e.kind {
            ExprKind::Call { callee, .. } => if self.pure_call(*callee) {
                SideEffect::Pure
            } else {
                SideEffect::Impure
            },
            ExprKind::MethodCall { recv, method, .. } | ExprKind::SafeMethodCall { recv, method, .. } => {
                if self.pure_method(*recv, method@) {
                    SideEffect::Pure
                } else {
                    SideEffect::Impure
                }
            },
            ExprKind::ArrayLit { .. } | ExprKind::RecordLit(_) | ExprKind::RecordExtend { .. } => self.alloc_effect(
                e.id,
            ),
            ExprKind::StrInterp(_)
            | ExprKind::Assign { .. }
            | ExprKind::CompoundAssign { .. }
            | ExprKind::Index { .. }
            | ExprKind::Slice { .. }
            | ExprKind::Propagate(_)
            | ExprKind::Lambda { .. }
            | ExprKind::Match { .. }
            | ExprKind::Atomic(_)
            | ExprKind::Lazy(_)
            | ExprKind::Select(_)
            | ExprKind::InlineTrait(_) => SideEffect::Impure,
            _ => SideEffect::Pure,
        }
    }

    /// What a statement does by itself, its expressions left aside.
    pub open spec fn own_stmt_effect(self, s: Stmt) -> SideEffect {
        match s.kind {
            StmtKind::Expression { .. } | StmtKind::ValDecl { .. } | StmtKind::VarDecl { .. } => SideEffect::Pure,
            _ => SideEffect::Impure,
        }
    }

    pub open spec fn piece_effect(self, p: Piece) -> SideEffect {
        match p {
            Piece::Expr(e) | Piece::Tail(e) => self.own_effect(*e),
            Piece::Stmt(s) => self.own_stmt_effect(*s),
        }
    }

    /// Whether one of the first `n` places has that effect.
    pub open spec fn some_has(self, s: Seq<Piece>, n: int, effect: SideEffect) -> bool {
        exists|i: int| 0 <= i < n && self.piece_effect(#[trigger] s[i]) == effect
    }

    /// The effect of the first `n` places together.
    pub open spec fn joint_effect(self, s: Seq<Piece>, n: int) -> SideEffect {
        if self.some_has(s, n, SideEffect::Impure) {
            SideEffect::Impure
        } else if self.some_has(s, n, SideEffect::AllocNoEscape) {
            SideEffect::AllocNoEscape
        } else {
            SideEffect::Pure
        }
    }

    /// The effect of evaluating `e`.
    pub open spec fn side_effect(self, e: Expr) -> SideEffect {
        let s = reached(Walk::Effects, Piece::Expr(&e));
        self.joint_effect(s, s.len() as int)
    }

    fn runs_pure(&self, name: &String) -> (r: bool)
        ensures
            r == self.pure_name(name@),
    {
        match self.func_name_to_id.get(name.as_str()) {
            Some(f) => self.purity.is_pure(FuncId(f)),
            None => false,
        }
    }

    fn calls_pure(&self, callee: &Expr) -> (r: bool)
        ensures
            r == self.pure_call(*callee),
    {
        match ident_of(callee) {
            Some(name) => !self.sema.suspends_or_throws(name) && self.runs_pure(name),
            None => false,
        }
    }

    fn calls_pure_method(&self, recv: &Expr, method: &String) -> (r: bool)
        ensures
            r == self.pure_method(*recv, method@),
    {
        match resolve_method_mangled(recv, method, self.module_name, self.sema) {
            Some(target) => {
                proof {
                    let t = self.sema.type_of(self.module_name@, recv.id)->0;
                    assert(target@[t.len() as int] == '.');
                    crate::names::lemma_last_dot(target@);
                }
                match split_member(&target) {
                    Some((owner, _member)) => {
                        !self.sema.method_suspends_or_throws(&owner, method) && self.runs_pure(&target)
                    },
                    None => self.runs_pure(&target),
                }
            },
            None => false,
        }
    }

    fn classify_piece(&self, p: Piece<'a>) -> (r: SideEffect)
        ensures
            r == self.piece_effect(p),
    {
        match p {
            Piece::Expr(e) | Piece::Tail(e) => match &e.kind {
                ExprKind::Call { callee, .. } => {
                    if self.calls_pure(callee) {
                        SideEffect::Pure
                    } else {
                        SideEffect::Impure
                    }
                },
                ExprKind::MethodCall { recv, method, .. } | ExprKind::SafeMethodCall { recv, method, .. } => {
                    if self.calls_pure_method(recv, method) {
                        SideEffect::Pure
                    } else {
                        SideEffect::Impure
                    }
                },
                ExprKind::ArrayLit { .. } | ExprKind::RecordLit(_) | ExprKind::RecordExtend { .. } => {
                    if self.escape.is_no_escape(e.id) {
                        SideEffect::AllocNoEscape
                    } else {
                        SideEffect::Impure
                    }
                },
                ExprKind::StrInterp(_)
                | ExprKind::Assign { .. }
                | ExprKind::CompoundAssign { .. }
                | ExprKind::Index { .. }
                | ExprKind::Slice { .. }
                | ExprKind::Propagate(_)
                | ExprKind::Lambda { .. }
                | ExprKind::Match { .. }
                | ExprKind::Atomic(_)
                | ExprKind::Lazy(_)
                | ExprKind::Select(_)
                | ExprKind::InlineTrait(_) => SideEffect::Impure,
                _ => SideEffect::Pure,
            },
            Piece::Stmt(s) => match &s.kind {
                StmtKind::Expression { .. } | StmtKind::ValDecl { .. } | StmtKind::VarDecl { .. } => SideEffect::Pure,
                _ => SideEffect::Impure,
            },
        }
    }

    /// The effect of evaluating `e`.
    pub fn classify(&self, e: &'a Expr) -> (r: SideEffect)
        ensures
            r == self.side_effect(*e),
    {
        let places = reach(Walk::Effects, Piece::Expr(e));
        let mut acc = SideEffect::Pure;
        let mut i: usize = 0;
        while i < places.len()
            invariant
                i <= places@.len(),
                acc == self.joint_effect(places@, i as int),
            decreases places@.len() - i,
        {
            let own = self.classify_piece(places[i]);
            proof {
                self.lemma_joint_effect(places@, i as int);
            }
            acc = combine(acc, own);
            i = i + 1;
        }
        acc
    }

    proof fn lemma_joint_effect(self, s: Seq<Piece>, n: int)
        requires
            0 <= n < s.len(),
        ensures
            self.joint_effect(s, n + 1) == combined(self.joint_effect(s, n), self.piece_effect(s[n])),
    {
        let own = self.piece_effect(s[n]);
        assert forall|effect: SideEffect| self.some_has(s, n + 1, effect) == (#[trigger] self.some_has(s, n, effect)
            || own == effect) by {
            if self.some_has(s, n + 1, effect) {
                let i = choose|i: int| 0 <= i < n + 1 && self.piece_effect(#[trigger] s[i]) == effect;
                if i < n {
                    assert(self.piece_effect(s[i]) == effect);
                }
            }
            if self.some_has(s, n, effect) {
                let i = choose|i: int| 0 <= i < n && self.piece_effect(#[trigger] s[i]) == effect;
                assert(self.piece_effect(s[i]) == effect);
            }
            if own == effect {
                assert(self.piece_effect(s[n]) == effect);
            }
        }
        assert(self.some_has(s, n + 1, SideEffect::Impure) == (self.some_has(s, n, SideEffect::Impure) || own
            == SideEffect::Impure));
        assert(self.some_has(s, n + 1, SideEffect::AllocNoEscape) == (self.some_has(s, n, SideEffect::AllocNoEscape)
            || own == SideEffect::AllocNoEscape));
    }
}

/// The effect of two things together: impure where one is, an allocation where
/// one is and none is impure.
pub open spec fn combined(a: SideEffect, b: SideEffect) -> SideEffect {
    if a == SideEffect::Impure || b == SideEffect::Impure {
        SideEffect::Impure
    } else if a == SideEffect::AllocNoEscape || b == SideEffect::AllocNoEscape {
        SideEffect::AllocNoEscape
    } else {
        SideEffect::Pure
    }
}

pub fn combine(a: SideEffect, b: SideEffect) -> (r: SideEffect)
    ensures
        r == combined(a, b),
{
    match (a, b) {
        (SideEffect::Impure, _) | (_, SideEffect::Impure) => SideEffect::Impure,
        (SideEffect::AllocNoEscape, _) | (_, SideEffect::AllocNoEscape) => SideEffect::AllocNoEscape,
        (SideEffect::Pure, SideEffect::Pure) => SideEffect::Pure,
    }
}

/// Whether an expression of that effect can be left out when its value is not
/// needed.
pub fn is_side_effect_free(s: SideEffect) -> (r: bool)
    ensures
        r == (s != SideEffect::Impure),
{
    s != SideEffect::Impure
}

/// The effect of evaluating an expression.
pub fn classify_side_effect(
    expr: &Expr,
    module_name: &String,
    sema: &SemaResult,
    purity: &PurityTable,
    escape: &EscapeTable,
    func_name_to_id: &NameMap,
) -> (r: SideEffect)
    ensures
        r == (Facts { module_name, sema, purity, escape, func_name_to_id }).side_effect(*expr),
{
    let facts = Facts { module_name, sema, purity, escape, func_name_to_id };
    facts.classify(expr)
}

/// An expression without side effects has none in any expression that takes
/// part in evaluating it.
pub proof fn law_parts_of_an_effect_free_expression(facts: Facts, e: Expr, part: Expr)
    requires
        reached(Walk::Effects, Piece::Expr(&e)).contains(Piece::Expr(&part)),
        facts.side_effect(e) != SideEffect::Impure,
    ensures
        facts.side_effect(part) != SideEffect::Impure,
{
    let whole = reached(Walk::Effects, Piece::Expr(&e));
    let s = reached(Walk::Effects, Piece::Expr(&part));
    if facts.side_effect(part) == SideEffect::Impure {
        let i = choose|i: int| 0 <= i < s.len() && facts.piece_effect(#[trigger] s[i]) == SideEffect::Impure;
        assert(s.contains(s[i]));
        law_reached_is_transitive(Walk::Effects, Piece::Expr(&e), Piece::Expr(&part), s[i]);
        let j = choose|j: int| 0 <= j < whole.len() && whole[j] == s[i];
        assert(facts.piece_effect(whole[j]) == SideEffect::Impure);
    }
}

/// Joining effects is commutative and associative, keeps what both sides
/// share, and has `Pure` as its neutral element.
pub proof fn law_combine(a: SideEffect, b: SideEffect, c: SideEffect)
    ensures
        combined(a, b) == combined(b, a),
        combined(a, combined(b, c)) == combined(combined(a, b), c),
        combined(a, a) == a,
        combined(a, SideEffect::Pure) == a,
{
}

proof fn lemma_impure_place(facts: Facts, e: Expr, p: Piece)
    requires
        reached(Walk::Effects, Piece::Expr(&e)).contains(p),
        facts.piece_effect(p) == SideEffect::Impure,
    ensures
        facts.side_effect(e) == SideEffect::Impure,
{
    let s = reached(Walk::Effects, Piece::Expr(&e));
    let i = choose|i: int| 0 <= i < s.len() && s[i] == p;
    assert(facts.piece_effect(s[i]) == SideEffect::Impure);
}

/// Assignments, indexing and slicing, propagation, lambdas, matches, atomic and
/// lazy values, selects, inline traits and interpolated strings are impure. So
/// is a call of anything but a name, of a name with effects, and of one that is
/// not known to be pure.
pub proof fn law_acting_expressions_are_impure(facts: Facts, e: Expr)
    requires
        ({
            ||| e.kind is Assign || e.kind is CompoundAssign || e.kind is Index || e.kind is Slice
            ||| e.kind is Propagate || e.kind is Lambda || e.kind is Match || e.kind is Atomic || e.kind is Lazy
            ||| e.kind is Select || e.kind is InlineTrait || e.kind is StrInterp
            ||| e.kind matches ExprKind::Call { callee, .. } && !(callee.kind is Ident)
            ||| e.kind matches ExprKind::Call { callee, .. } && callee.kind matches ExprKind::Ident(name) && (
            facts.sema.effectful_fn(name@) || !facts.func_name_to_id@.contains_key(name@) || facts.purity.of(
                FuncId(facts.func_name_to_id@[name@]),
            ) != Some(Purity::Pure))
            ||| (e.kind is ArrayLit || e.kind is RecordLit || e.kind is RecordExtend) && facts.escape.of(e.id) != Some(
                EscapeInfo::NoEscape,
            )
        }),
    ensures
        facts.side_effect(e) == SideEffect::Impure,
{
    law_reached(Walk::Effects, Piece::Expr(&e), Piece::Expr(&e));
    lemma_impure_place(facts, e, Piece::Expr(&e));
}

/// A block with a statement other than a declaration or an expression is impure.
pub proof fn law_acting_statements_make_impure(facts: Facts, e: Expr, k: int)
    requires
        e.kind is Block,
        0 <= k < e.kind->stmts@.len(),
        !(e.kind->stmts@[k].kind is Expression),
        !(e.kind->stmts@[k].kind is ValDecl),
        !(e.kind->stmts@[k].kind is VarDecl),
    ensures
        facts.side_effect(e) == SideEffect::Impure,
{
    law_walks_enter_statements(Walk::Effects, e, k);
    lemma_impure_place(facts, e, Piece::Stmt(&e.kind->stmts@[k]));
}

/// Literals and variables have no effect.
pub proof fn law_plain_values_have_no_effect(facts: Facts, e: Expr)
    requires
        e.kind is IntLit || e.kind is FloatLit || e.kind is BoolLit || e.kind is CharLit || e.kind is StrLit || e.kind
            is NullLit || e.kind is VoidLit || e.kind is Ident,
    ensures
        facts.side_effect(e) == SideEffect::Pure,
{
    let p = Piece::Expr(&e);
    let s = reached(Walk::Effects, p);
    assert forall|i: int| 0 <= i < s.len() implies facts.piece_effect(#[trigger] s[i]) == SideEffect::Pure by {
        assert(s.contains(s[i]));
        law_reached(Walk::Effects, p, s[i]);
    }
}

/// An allocation that stays within its function is no pure value; it is impure
/// only where a part of it is.
pub proof fn law_allocations_are_no_pure_values(facts: Facts, e: Expr)
    requires
        e.kind is ArrayLit || e.kind is RecordLit || e.kind is RecordExtend,
    ensures
        facts.side_effect(e) != SideEffect::Pure,
{
    let p = Piece::Expr(&e);
    let s = reached(Walk::Effects, p);
    law_reached(Walk::Effects, p, p);
    let i = choose|i: int| 0 <= i < s.len() && s[i] == p;
    assert(facts.piece_effect(s[i]) != SideEffect::Pure);
}

} // verus!
