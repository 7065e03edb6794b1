//! Walks over a syntax tree: which places each of them reaches, and in what
//! order.

use super::tree::{Decl, Expr, ExprKind, FieldInit, InterpolationPart, MatchArm, Method, Pattern, SelectArm, Stmt, StmtKind};
use crate::fx::IdSet;
use vstd::prelude::*;

verus! {

/// A place in a syntax tree.
#[derive(Clone, Copy)]
pub enum Piece<'a> {
    Expr(&'a Expr),
    /// An expression whose value is the value of the body it stands in.
    Tail(&'a Expr),
    Stmt(&'a Stmt),
}

pub open spec fn opt_size(o: Option<Expr>) -> nat
    decreases o,
{
    match o {
        Some(e) => expr_size(e),
        None => 0,
    }
}

pub open spec fn opt_box_size(o: Option<Box<Expr>>) -> nat
    decreases o,
{
    match o {
        Some(e) => expr_size(*e),
        None => 0,
    }
}

pub open spec fn exprs_size(s: Seq<Expr>) -> nat
    decreases s,
{
    if s.len() == 0 {
        0
    } else {
        exprs_size(s.drop_last()) + expr_size(s.last())
    }
}

pub open spec fn stmts_size(s: Seq<Stmt>) -> nat
    decreases s,
{
    if s.len() == 0 {
        0
    } else {
        stmts_size(s.drop_last()) + stmt_size(s.last())
    }
}

pub open spec fn fields_size(s: Seq<FieldInit>) -> nat
    decreases s,
{
    if s.len() == 0 {
        0
    } else {
        fields_size(s.drop_last()) + expr_size(s.last().value)
    }
}

pub open spec fn arms_size(s: Seq<MatchArm>) -> nat
    decreases s,
{
    if s.len() == 0 {
        0
    } else {
        arms_size(s.drop_last()) + pattern_size(s.last().pattern) + opt_size(s.last().guard) + expr_size(s.last().body)
    }
}

pub open spec fn patterns_size(s: Seq<Pattern>) -> nat
    decreases s,
{
    if s.len() == 0 {
        0
    } else {
        patterns_size(s.drop_last()) + pattern_size(s.last())
    }
}

/// Number of patterns, expressions and statements in `p`, with `p`.
pub open spec fn pattern_size(p: Pattern) -> nat
    decreases p,
{
    1 + match p {
        Pattern::Constructor { patterns, .. } => patterns_size(patterns@),
        Pattern::Record { fields } => patterns_size(fields@),
        Pattern::OrPattern { left, right } => pattern_size(*left) + pattern_size(*right),
        Pattern::Guard { pattern, condition } => pattern_size(*pattern) + expr_size(*condition),
        Pattern::Wildcard | Pattern::Literal | Pattern::Variable { .. } => 0,
    }
}

pub open spec fn interp_size(s: Seq<InterpolationPart>) -> nat
    decreases s,
{
    if s.len() == 0 {
        0
    } else {
        interp_size(s.drop_last()) + match s.last() {
            InterpolationPart::Expression(e) => expr_size(e),
            InterpolationPart::Text(_) => 0,
        }
    }
}

pub open spec fn selects_size(s: Seq<SelectArm>) -> nat
    decreases s,
{
    if s.len() == 0 {
        0
    } else {
        selects_size(s.drop_last()) + match s.last() {
            SelectArm::Receive { channel_expr, body } => expr_size(channel_expr) + expr_size(body),
            SelectArm::Timeout { duration, body } => expr_size(duration) + expr_size(body),
        }
    }
}

pub open spec fn methods_size(s: Seq<Method>) -> nat
    decreases s,
{
    if s.len() == 0 {
        0
    } else {
        methods_size(s.drop_last()) + opt_size(s.last().body)
    }
}

/// Number of expressions, statements and patterns in `e`, with `e`.
pub open spec fn expr_size(e: Expr) -> nat
    decreases e,
{
    1 + match e.kind {
        ExprKind::Unary { operand: x }
        | ExprKind::RefOf(x)
        | ExprKind::Deref(x)
        | ExprKind::NonNullAssert(x)
        | ExprKind::Propagate(x)
        | ExprKind::Atomic(x)
        | ExprKind::Lazy(x)
        | ExprKind::FieldAccess { recv: x }
        | ExprKind::SafeAccess { recv: x }
        | ExprKind::Lambda { body: x, .. } => expr_size(*x),
        ExprKind::Binary { lhs: x, rhs: y }
        | ExprKind::Elvis { lhs: x, rhs: y }
        | ExprKind::Assign { target: x, value: y }
        | ExprKind::CompoundAssign { target: x, value: y }
        | ExprKind::Index { recv: x, index: y } => expr_size(*x) + expr_size(*y),
        ExprKind::Call { callee: x, args }
        | ExprKind::MethodCall { recv: x, args, .. }
        | ExprKind::SafeMethodCall { recv: x, args, .. } => expr_size(*x) + exprs_size(args@),
        ExprKind::Slice { recv, start, end } => expr_size(*recv) + expr_size(*start) + expr_size(*end),
        ExprKind::ArrayLit { elements, fill } => exprs_size(elements@) + match fill {
            Some(f) => expr_size(f.value) + expr_size(f.count),
            None => 0,
        },
        ExprKind::RecordLit(fields) => fields_size(fields@),
        ExprKind::RecordExtend { base, updates } => expr_size(*base) + fields_size(updates@),
        ExprKind::If { cond, then_branch, else_branch } => expr_size(*cond) + expr_size(*then_branch)
            + opt_box_size(else_branch),
        ExprKind::Block { stmts, trailing } => stmts_size(stmts@) + opt_box_size(trailing),
        ExprKind::Match { scrutinee, arms } => expr_size(*scrutinee) + arms_size(arms@),
        ExprKind::StrInterp(parts) => interp_size(parts@),
        ExprKind::Select(arms) => selects_size(arms@),
        ExprKind::InlineTrait(methods) => methods_size(methods@),
        _ => 0,
    }
}

/// Number of expressions, statements and patterns in `s`, with `s`.
pub open spec fn stmt_size(s: Stmt) -> nat
    decreases s,
{
    1 + match s.kind {
        StmtKind::ValDecl { value: x, .. }
        | StmtKind::VarDecl { value: x, .. }
        | StmtKind::Expression { expr: x }
        | StmtKind::Defer { expr: x }
        | StmtKind::Throw { expr: x }
        | StmtKind::Loop { body: x } => expr_size(x),
        StmtKind::Assignment { target: x, value: y }
        | StmtKind::CompoundAssignment { target: x, value: y }
        | StmtKind::FieldAssignment { object: x, value: y }
        | StmtKind::For { iterable: x, body: y, .. }
        | StmtKind::While { condition: x, body: y } => expr_size(x) + expr_size(y),
        StmtKind::Return { value } => opt_size(value),
        StmtKind::LocalDecl { decl } => match *decl {
            Decl::Fun(f) => expr_size(f.body),
            _ => 0,
        },
        StmtKind::Break | StmtKind::Continue => 0,
    }
}

pub open spec fn piece_size(p: Piece) -> nat {
    match p {
        Piece::Expr(e) | Piece::Tail(e) => expr_size(*e),
        Piece::Stmt(s) => stmt_size(*s),
    }
}


// ---- what stands directly below a place ------------------------------------

pub open spec fn expr_pieces<'a>(s: Seq<Expr>) -> Seq<Piece<'a>> {
    Seq::new(s.len(), |i: int| Piece::Expr(&s[i]))
}

pub open spec fn stmt_pieces<'a>(s: Seq<Stmt>) -> Seq<Piece<'a>> {
    Seq::new(s.len(), |i: int| Piece::Stmt(&s[i]))
}

pub open spec fn field_pieces<'a>(s: Seq<FieldInit>) -> Seq<Piece<'a>> {
    Seq::new(s.len(), |i: int| Piece::Expr(&s[i].value))
}

pub open spec fn opt_pieces<'a>(o: Option<Expr>) -> Seq<Piece<'a>> {
    match o {
        Some(e) => seq![Piece::Expr(&e)],
        None => seq![],
    }
}

pub open spec fn opt_box_pieces<'a>(o: Option<Box<Expr>>) -> Seq<Piece<'a>> {
    match o {
        Some(e) => seq![Piece::Expr(&*e)],
        None => seq![],
    }
}

/// The conditions in a pattern.
pub open spec fn condition_pieces<'a>(p: Pattern) -> Seq<Piece<'a>>
    decreases p,
{
    match p {
        Pattern::Constructor { patterns, .. } => conditions_pieces(patterns@),
        Pattern::Record { fields } => conditions_pieces(fields@),
        Pattern::OrPattern { left, right } => condition_pieces(*left) + condition_pieces(*right),
        Pattern::Guard { pattern, condition } => condition_pieces(*pattern) + seq![Piece::Expr(&*condition)],
        Pattern::Wildcard | Pattern::Literal | Pattern::Variable { .. } => seq![],
    }
}

pub open spec fn conditions_pieces<'a>(s: Seq<Pattern>) -> Seq<Piece<'a>>
    decreases s,
{
    if s.len() == 0 {
        seq![]
    } else {
        conditions_pieces(s.drop_last()) + condition_pieces(s.last())
    }
}

/// The place of `e`, in a tail position where `p` is in one.
pub open spec fn like<'a>(p: Piece<'a>, e: Expr) -> Piece<'a> {
    if p is Tail {
        Piece::Tail(&e)
    } else {
        Piece::Expr(&e)
    }
}

/// The conditions, guards and bodies of the arms of a match at `p`.
pub open spec fn arm_pieces<'a>(p: Piece<'a>, s: Seq<MatchArm>) -> Seq<Piece<'a>>
    decreases s.len(),
{
    if s.len() == 0 {
        seq![]
    } else {
        arm_pieces(p, s.drop_last()) + condition_pieces(s.last().pattern) + opt_pieces(s.last().guard) + seq![
            like(p, s.last().body),
        ]
    }
}

pub open spec fn interp_pieces<'a>(s: Seq<InterpolationPart>) -> Seq<Piece<'a>>
    decreases s.len(),
{
    if s.len() == 0 {
        seq![]
    } else {
        interp_pieces(s.drop_last()) + match s.last() {
            InterpolationPart::Expression(e) => seq![Piece::Expr(&e)],
            InterpolationPart::Text(_) => seq![],
        }
    }
}

pub open spec fn select_pieces<'a>(s: Seq<SelectArm>) -> Seq<Piece<'a>>
    decreases s.len(),
{
    if s.len() == 0 {
        seq![]
    } else {
        select_pieces(s.drop_last()) + match s.last() {
            SelectArm::Receive { channel_expr, body } => seq![Piece::Expr(&channel_expr), Piece::Expr(&body)],
            SelectArm::Timeout { duration, body } => seq![Piece::Expr(&duration), Piece::Expr(&body)],
        }
    }
}

pub open spec fn method_pieces<'a>(s: Seq<Method>) -> Seq<Piece<'a>>
    decreases s.len(),
{
    if s.len() == 0 {
        seq![]
    } else {
        method_pieces(s.drop_last()) + opt_pieces(s.last().body)
    }
}

/// The expressions and statements directly below `e`, in source order.
pub open spec fn expr_parts<'a>(e: Expr) -> Seq<Piece<'a>> {
    match e.kind {
        ExprKind::Unary { operand: x }
        | ExprKind::RefOf(x)
        | ExprKind::Deref(x)
        | ExprKind::NonNullAssert(x)
        | ExprKind::Propagate(x)
        | ExprKind::Atomic(x)
        | ExprKind::Lazy(x)
        | ExprKind::FieldAccess { recv: x }
        | ExprKind::SafeAccess { recv: x }
        | ExprKind::Lambda { body: x, .. } => seq![Piece::Expr(&*x)],
        ExprKind::Binary { lhs: x, rhs: y }
        | ExprKind::Elvis { lhs: x, rhs: y }
        | ExprKind::Assign { target: x, value: y }
        | ExprKind::CompoundAssign { target: x, value: y }
        | ExprKind::Index { recv: x, index: y } => seq![Piece::Expr(&*x), Piece::Expr(&*y)],
        ExprKind::Call { callee: x, args }
        | ExprKind::MethodCall { recv: x, args, .. }
        | ExprKind::SafeMethodCall { recv: x, args, .. } => seq![Piece::Expr(&*x)] + expr_pieces(args@),
        ExprKind::Slice { recv, start, end } => seq![Piece::Expr(&*recv), Piece::Expr(&*start), Piece::Expr(&*end)],
        ExprKind::ArrayLit { elements, fill } => expr_pieces(elements@) + match fill {
            Some(f) => seq![Piece::Expr(&f.value), Piece::Expr(&f.count)],
            None => seq![],
        },
        ExprKind::RecordLit(fields) => field_pieces(fields@),
        ExprKind::RecordExtend { base, updates } => seq![Piece::Expr(&*base)] + field_pieces(updates@),
        ExprKind::If { cond, then_branch, else_branch } => seq![Piece::Expr(&*cond), Piece::Expr(&*then_branch)]
            + opt_box_pieces(else_branch),
        ExprKind::Block { stmts, trailing } => stmt_pieces(stmts@) + opt_box_pieces(trailing),
        ExprKind::Match { scrutinee, arms } => seq![Piece::Expr(&*scrutinee)] + arm_pieces(
            Piece::Expr(&e),
            arms@,
        ),
        ExprKind::StrInterp(parts) => interp_pieces(parts@),
        ExprKind::Select(arms) => select_pieces(arms@),
        ExprKind::InlineTrait(methods) => method_pieces(methods@),
        _ => seq![],
    }
}

/// The expressions directly below `s`, in source order.
pub open spec fn stmt_parts<'a>(s: Stmt) -> Seq<Piece<'a>> {
    match s.kind {
        StmtKind::ValDecl { value: x, .. }
        | StmtKind::VarDecl { value: x, .. }
        | StmtKind::Expression { expr: x }
        | StmtKind::Defer { expr: x }
        | StmtKind::Throw { expr: x }
        | StmtKind::Loop { body: x } => seq![Piece::Expr(&x)],
        StmtKind::Assignment { target: x, value: y }
        | StmtKind::CompoundAssignment { target: x, value: y }
        | StmtKind::FieldAssignment { object: x, value: y }
        | StmtKind::For { iterable: x, body: y, .. }
        | StmtKind::While { condition: x, body: y } => seq![Piece::Expr(&x), Piece::Expr(&y)],
        StmtKind::Return { value } => opt_pieces(value),
        StmtKind::LocalDecl { decl } => match *decl {
            Decl::Fun(f) => seq![Piece::Expr(&f.body)],
            _ => seq![],
        },
        StmtKind::Break | StmtKind::Continue => seq![],
    }
}

/// What stands directly below a place, in source order.
pub open spec fn parts<'a>(p: Piece<'a>) -> Seq<Piece<'a>> {
    match p {
        Piece::Expr(e) | Piece::Tail(e) => expr_parts(*e),
        Piece::Stmt(s) => stmt_parts(*s),
    }
}

pub fn push_exprs<'a>(out: &mut Vec<Piece<'a>>, s: &'a Vec<Expr>)
    ensures
        final(out)@ == old(out)@ + expr_pieces(s@),
{
    let mut i: usize = 0;
    while i < s.len()
        invariant
            i <= s@.len(),
            out@ == old(out)@ + expr_pieces(s@.take(i as int)),
        decreases s@.len() - i,
    {
        out.push(Piece::Expr(&s[i]));
        i = i + 1;
        assert(out@ =~= old(out)@ + expr_pieces(s@.take(i as int)));
    }
    assert(s@.take(i as int) =~= s@);
}

fn push_stmts<'a>(out: &mut Vec<Piece<'a>>, s: &'a Vec<Stmt>)
    ensures
        final(out)@ == old(out)@ + stmt_pieces(s@),
{
    let mut i: usize = 0;
    while i < s.len()
        invariant
            i <= s@.len(),
            out@ == old(out)@ + stmt_pieces(s@.take(i as int)),
        decreases s@.len() - i,
    {
        out.push(Piece::Stmt(&s[i]));
        i = i + 1;
        assert(out@ =~= old(out)@ + stmt_pieces(s@.take(i as int)));
    }
    assert(s@.take(i as int) =~= s@);
}

fn push_fields<'a>(out: &mut Vec<Piece<'a>>, s: &'a Vec<FieldInit>)
    ensures
        final(out)@ == old(out)@ + field_pieces(s@),
{
    let mut i: usize = 0;
    while i < s.len()
        invariant
            i <= s@.len(),
            out@ == old(out)@ + field_pieces(s@.take(i as int)),
        decreases s@.len() - i,
    {
        out.push(Piece::Expr(&s[i].value));
        i = i + 1;
        assert(out@ =~= old(out)@ + field_pieces(s@.take(i as int)));
    }
    assert(s@.take(i as int) =~= s@);
}

fn push_opt<'a>(out: &mut Vec<Piece<'a>>, o: &'a Option<Expr>)
    ensures
        final(out)@ == old(out)@ + opt_pieces(*o),
{
    if let Some(e) = o {
        out.push(Piece::Expr(e));
    }
    assert(out@ =~= old(out)@ + opt_pieces(*o));
}

fn push_opt_box<'a>(out: &mut Vec<Piece<'a>>, o: &'a Option<Box<Expr>>)
    ensures
        final(out)@ == old(out)@ + opt_box_pieces(*o),
{
    if let Some(e) = o {
        out.push(Piece::Expr(e));
    }
    assert(out@ =~= old(out)@ + opt_box_pieces(*o));
}

fn push_conditions<'a>(out: &mut Vec<Piece<'a>>, p: &'a Pattern)
    ensures
        final(out)@ == old(out)@ + condition_pieces(*p),
    decreases p,
{
    match p {
        Pattern::Constructor { patterns: s, .. } | Pattern::Record { fields: s } => {
            let mut i: usize = 0;
            assert(out@ =~= old(out)@ + conditions_pieces(s@.take(0)));
            while i < s.len()
                invariant
                    i <= s@.len(),
                    decreases_to!(*p => s@),
                    out@ == old(out)@ + conditions_pieces(s@.take(i as int)),
                decreases s@.len() - i,
            {
                assert(s@.take(i + 1).drop_last() =~= s@.take(i as int));
                assert(decreases_to!(s@ => s@[i as int]));
                push_conditions(out, &s[i]);
                i = i + 1;
                assert(out@ =~= old(out)@ + conditions_pieces(s@.take(i as int)));
            }
            assert(s@.take(i as int) =~= s@);
        },
        Pattern::OrPattern { left, right } => {
            push_conditions(out, left);
            push_conditions(out, right);
        },
        Pattern::Guard { pattern, condition } => {
            push_conditions(out, pattern);
            out.push(Piece::Expr(condition));
        },
        Pattern::Wildcard | Pattern::Literal | Pattern::Variable { .. } => {},
    }
    assert(out@ =~= old(out)@ + condition_pieces(*p));
}

fn like_piece<'a>(p: Piece<'a>, e: &'a Expr) -> (r: Piece<'a>)
    ensures
        r == like(p, *e),
{
    match p {
        Piece::Tail(_) => Piece::Tail(e),
        _ => Piece::Expr(e),
    }
}

fn push_arms<'a>(out: &mut Vec<Piece<'a>>, p: Piece<'a>, s: &'a Vec<MatchArm>)
    ensures
        final(out)@ == old(out)@ + arm_pieces(p, s@),
{
    let mut i: usize = 0;
    assert(out@ =~= old(out)@ + arm_pieces(p, s@.take(0)));
    while i < s.len()
        invariant
            i <= s@.len(),
            out@ == old(out)@ + arm_pieces(p, s@.take(i as int)),
        decreases s@.len() - i,
    {
        assert(s@.take(i + 1).drop_last() =~= s@.take(i as int));
        push_conditions(out, &s[i].pattern);
        push_opt(out, &s[i].guard);
        out.push(like_piece(p, &s[i].body));
        i = i + 1;
        assert(out@ =~= old(out)@ + arm_pieces(p, s@.take(i as int)));
    }
    assert(s@.take(i as int) =~= s@);
}

fn push_interp<'a>(out: &mut Vec<Piece<'a>>, s: &'a Vec<InterpolationPart>)
    ensures
        final(out)@ == old(out)@ + interp_pieces(s@),
{
    let mut i: usize = 0;
    assert(out@ =~= old(out)@ + interp_pieces(s@.take(0)));
    while i < s.len()
        invariant
            i <= s@.len(),
            out@ == old(out)@ + interp_pieces(s@.take(i as int)),
        decreases s@.len() - i,
    {
        assert(s@.take(i + 1).drop_last() =~= s@.take(i as int));
        if let InterpolationPart::Expression(e) = &s[i] {
            out.push(Piece::Expr(e));
        }
        i = i + 1;
        assert(out@ =~= old(out)@ + interp_pieces(s@.take(i as int)));
    }
    assert(s@.take(i as int) =~= s@);
}

fn push_selects<'a>(out: &mut Vec<Piece<'a>>, s: &'a Vec<SelectArm>)
    ensures
        final(out)@ == old(out)@ + select_pieces(s@),
{
    let mut i: usize = 0;
    assert(out@ =~= old(out)@ + select_pieces(s@.take(0)));
    while i < s.len()
        invariant
            i <= s@.len(),
            out@ == old(out)@ + select_pieces(s@.take(i as int)),
        decreases s@.len() - i,
    {
        assert(s@.take(i + 1).drop_last() =~= s@.take(i as int));
        match &s[i] {
            SelectArm::Receive { channel_expr, body } => {
                out.push(Piece::Expr(channel_expr));
                out.push(Piece::Expr(body));
            },
            SelectArm::Timeout { duration, body } => {
                out.push(Piece::Expr(duration));
                out.push(Piece::Expr(body));
            },
        }
        i = i + 1;
        assert(out@ =~= old(out)@ + select_pieces(s@.take(i as int)));
    }
    assert(s@.take(i as int) =~= s@);
}

fn push_methods<'a>(out: &mut Vec<Piece<'a>>, s: &'a Vec<Method>)
    ensures
        final(out)@ == old(out)@ + method_pieces(s@),
{
    let mut i: usize = 0;
    assert(out@ =~= old(out)@ + method_pieces(s@.take(0)));
    while i < s.len()
        invariant
            i <= s@.len(),
            out@ == old(out)@ + method_pieces(s@.take(i as int)),
        decreases s@.len() - i,
    {
        assert(s@.take(i + 1).drop_last() =~= s@.take(i as int));
        push_opt(out, &s[i].body);
        i = i + 1;
        assert(out@ =~= old(out)@ + method_pieces(s@.take(i as int)));
    }
    assert(s@.take(i as int) =~= s@);
}

fn push_expr_parts<'a>(out: &mut Vec<Piece<'a>>, e: &'a Expr)
    ensures
        final(out)@ == old(out)@ + expr_parts(*e),
{
    match &e.kind {
        ExprKind::Unary { operand: x }
        | ExprKind::RefOf(x)
        | ExprKind::Deref(x)
        | ExprKind::NonNullAssert(x)
        | ExprKind::Propagate(x)
        | ExprKind::Atomic(x)
        | ExprKind::Lazy(x)
        | ExprKind::FieldAccess { recv: x }
        | ExprKind::SafeAccess { recv: x }
        | ExprKind::Lambda { body: x, .. } => {
            out.push(Piece::Expr(x));
        },
        ExprKind::Binary { lhs: x, rhs: y }
        | ExprKind::Elvis { lhs: x, rhs: y }
        | ExprKind::Assign { target: x, value: y }
        | ExprKind::CompoundAssign { target: x, value: y }
        | ExprKind::Index { recv: x, index: y } => {
            out.push(Piece::Expr(x));
            out.push(Piece::Expr(y));
        },
        ExprKind::Call { callee: x, args }
        | ExprKind::MethodCall { recv: x, args, .. }
        | ExprKind::SafeMethodCall { recv: x, args, .. } => {
            out.push(Piece::Expr(x));
            push_exprs(out, args);
        },
        ExprKind::Slice { recv, start, end } => {
            out.push(Piece::Expr(recv));
            out.push(Piece::Expr(start));
            out.push(Piece::Expr(end));
        },
        ExprKind::ArrayLit { elements, fill } => {
            push_exprs(out, elements);
            if let Some(f) = fill {
                out.push(Piece::Expr(&f.value));
                out.push(Piece::Expr(&f.count));
            }
        },
        ExprKind::RecordLit(fields) => {
            push_fields(out, fields);
        },
        ExprKind::RecordExtend { base, updates } => {
            out.push(Piece::Expr(base));
            push_fields(out, updates);
        },
        ExprKind::If { cond, then_branch, else_branch } => {
            out.push(Piece::Expr(cond));
            out.push(Piece::Expr(then_branch));
            push_opt_box(out, else_branch);
        },
        ExprKind::Block { stmts, trailing } => {
            push_stmts(out, stmts);
            push_opt_box(out, trailing);
        },
        ExprKind::Match { scrutinee, arms } => {
            out.push(Piece::Expr(scrutinee));
            push_arms(out, Piece::Expr(e), arms);
        },
        ExprKind::StrInterp(parts) => {
            push_interp(out, parts);
        },
        ExprKind::Select(arms) => {
            push_selects(out, arms);
        },
        ExprKind::InlineTrait(methods) => {
            push_methods(out, methods);
        },
        _ => {},
    }
    assert(out@ =~= old(out)@ + expr_parts(*e));
}

fn push_stmt_parts<'a>(out: &mut Vec<Piece<'a>>, s: &'a Stmt)
    ensures
        final(out)@ == old(out)@ + stmt_parts(*s),
{
    match &s.kind {
        StmtKind::ValDecl { value: x, .. }
        | StmtKind::VarDecl { value: x, .. }
        | StmtKind::Expression { expr: x }
        | StmtKind::Defer { expr: x }
        | StmtKind::Throw { expr: x }
        | StmtKind::Loop { body: x } => {
            out.push(Piece::Expr(x));
        },
        StmtKind::Assignment { target: x, value: y }
        | StmtKind::CompoundAssignment { target: x, value: y }
        | StmtKind::FieldAssignment { object: x, value: y }
        | StmtKind::For { iterable: x, body: y, .. }
        | StmtKind::While { condition: x, body: y } => {
            out.push(Piece::Expr(x));
            out.push(Piece::Expr(y));
        },
        StmtKind::Return { value } => {
            push_opt(out, value);
        },
        StmtKind::LocalDecl { decl } => {
            if let Decl::Fun(f) = &**decl {
                out.push(Piece::Expr(&f.body));
            }
        },
        StmtKind::Break | StmtKind::Continue => {},
    }
    assert(out@ =~= old(out)@ + stmt_parts(*s));
}

pub fn push_parts<'a>(out: &mut Vec<Piece<'a>>, p: Piece<'a>)
    ensures
        final(out)@ == old(out)@ + parts(p),
{
    match p {
        Piece::Expr(e) | Piece::Tail(e) => push_expr_parts(out, e),
        Piece::Stmt(s) => push_stmt_parts(out, s),
    }
}


// ---- walks -----------------------------------------------------------------

/// Which places below a place a walk goes to.
#[derive(Clone, Copy)]
pub enum Walk {
    /// Everything.
    Full,
    /// Everything but the methods of inline traits.
    Calls,
    /// Everything but local functions.
    Vars,
    /// Nothing of another scope: no lambda, inline trait or local function.
    /// The last expression of a block comes before its statements.
    Inner,
    /// As `Inner`, and nothing that is deferred.
    NoDefer,
    /// What takes part in evaluating an expression without other effects than
    /// those of the calls in it.
    Effects,
    /// The places whose value a body returns, `return` statements and the
    /// right side of an elvis operator among them.
    TailLambdas,
    /// The places whose value a body has as its last.
    TailCalls,
    /// As `Inner`, without the targets of assignment statements.
    DeadDecls,
    /// As `Inner` in source order; of a loop, only its body.
    Loops,
    /// As `Inner`, without what follows the end of a block and without the
    /// statement that ends it.
    Reachable,
    /// Everything, with tail positions told apart.
    SelfCalls,
    /// The places whose values the value of an expression may be or hold.
    Carried,
}

pub open spec fn is_ident(e: Expr) -> bool {
    e.kind is Ident
}

/// Whether `e` calls the function `name` by its name.
pub open spec fn calls_name(e: Expr, name: Seq<char>) -> bool {
    match e.kind {
        ExprKind::Call { callee, .. } => match callee.kind {
            ExprKind::Ident(n) => n@ == name,
            _ => false,
        },
        _ => false,
    }
}

/// Whether the statements behind `s` in its block are never run.
pub open spec fn is_terminator(s: Stmt) -> bool {
    s.kind is Return || s.kind is Break || s.kind is Continue || s.kind is Throw
}

/// Number of statements in front of the one that ends the block; all of them
/// where none does.
pub open spec fn live_prefix(s: Seq<Stmt>) -> nat
    decreases s.len(),
{
    if s.len() == 0 {
        0
    } else if live_prefix(s.drop_last()) < s.len() - 1 {
        live_prefix(s.drop_last())
    } else if is_terminator(s.last()) {
        (s.len() - 1) as nat
    } else {
        s.len()
    }
}

/// What the `return` statements among `s` return.
pub open spec fn returned<'a>(s: Seq<Stmt>) -> Seq<Piece<'a>>
    decreases s.len(),
{
    if s.len() == 0 {
        seq![]
    } else {
        returned(s.drop_last()) + match s.last().kind {
            StmtKind::Return { value } => opt_pieces(value),
            _ => seq![],
        }
    }
}

pub open spec fn arm_bodies<'a>(p: Piece<'a>, s: Seq<MatchArm>) -> Seq<Piece<'a>> {
    Seq::new(s.len(), |i: int| like(p, s[i].body))
}

pub open spec fn like_opt<'a>(p: Piece<'a>, o: Option<Box<Expr>>) -> Seq<Piece<'a>> {
    match o {
        Some(e) => seq![like(p, *e)],
        None => seq![],
    }
}

/// The places directly below `p` that are in its scope.
pub open spec fn inner_parts<'a>(p: Piece<'a>) -> Seq<Piece<'a>> {
    match p {
        Piece::Expr(e) | Piece::Tail(e) => match e.kind {
            ExprKind::Lambda { .. } | ExprKind::InlineTrait(_) => seq![],
            ExprKind::Block { stmts, trailing } => opt_box_pieces(trailing) + stmt_pieces(stmts@),
            _ => expr_parts(*e),
        },
        Piece::Stmt(s) => match s.kind {
            StmtKind::LocalDecl { .. } => seq![],
            _ => stmt_parts(*s),
        },
    }
}

pub open spec fn effect_steps<'a>(p: Piece<'a>) -> Seq<Piece<'a>> {
    match p {
        Piece::Expr(e) | Piece::Tail(e) => match e.kind {
            ExprKind::Unary { .. }
            | ExprKind::RefOf(_)
            | ExprKind::Deref(_)
            | ExprKind::NonNullAssert(_)
            | ExprKind::Binary { .. }
            | ExprKind::If { .. }
            | ExprKind::Block { .. }
            | ExprKind::FieldAccess { .. }
            | ExprKind::SafeAccess { .. }
            | ExprKind::MethodCall { .. }
            | ExprKind::SafeMethodCall { .. }
            | ExprKind::ArrayLit { .. }
            | ExprKind::RecordLit(_)
            | ExprKind::RecordExtend { .. }
            | ExprKind::Elvis { .. } => expr_parts(*e),
            ExprKind::Call { args, .. } => expr_pieces(args@),
            _ => seq![],
        },
        Piece::Stmt(s) => match s.kind {
            StmtKind::Expression { .. } | StmtKind::ValDecl { .. } | StmtKind::VarDecl { .. } => stmt_parts(*s),
            _ => seq![],
        },
    }
}

pub open spec fn tail_lambda_steps<'a>(p: Piece<'a>) -> Seq<Piece<'a>> {
    match p {
        Piece::Expr(e) | Piece::Tail(e) => match e.kind {
            ExprKind::Block { stmts, trailing } => returned(stmts@) + opt_box_pieces(trailing),
            ExprKind::If { then_branch, else_branch, .. } => seq![Piece::Expr(&*then_branch)] + opt_box_pieces(
                else_branch,
            ),
            ExprKind::Match { arms, .. } => arm_bodies(Piece::Expr(e), arms@),
            ExprKind::Elvis { rhs, .. } => seq![Piece::Expr(&*rhs)],
            _ => seq![],
        },
        Piece::Stmt(_) => seq![],
    }
}

pub open spec fn tail_call_steps<'a>(p: Piece<'a>) -> Seq<Piece<'a>> {
    match p {
        Piece::Expr(e) | Piece::Tail(e) => match e.kind {
            ExprKind::Block { trailing, .. } => opt_box_pieces(trailing),
            ExprKind::If { then_branch, else_branch, .. } => seq![Piece::Expr(&*then_branch)] + opt_box_pieces(
                else_branch,
            ),
            ExprKind::Match { arms, .. } => arm_bodies(Piece::Expr(e), arms@),
            _ => seq![],
        },
        Piece::Stmt(_) => seq![],
    }
}

/// Where a variable may be read below a place, without the statements of the
/// set and without the variables that assignments are made to.
pub open spec fn read_steps<'a>(dead: Set<u32>, p: Piece<'a>) -> Seq<Piece<'a>> {
    match p {
        Piece::Expr(e) | Piece::Tail(e) => match e.kind {
            ExprKind::Assign { target, value } => if is_ident(*target) {
                seq![Piece::Expr(&*value)]
            } else {
                parts(p)
            },
            _ => parts(p),
        },
        Piece::Stmt(s) => if dead.contains(s.id.0) {
            seq![]
        } else {
            match s.kind {
                StmtKind::Assignment { target, value } => if is_ident(target) {
                    seq![Piece::Expr(&value)]
                } else {
                    parts(p)
                },
                _ => parts(p),
            }
        },
    }
}

pub open spec fn loop_steps<'a>(p: Piece<'a>) -> Seq<Piece<'a>> {
    match p {
        Piece::Expr(e) | Piece::Tail(e) => match e.kind {
            ExprKind::Lambda { .. } | ExprKind::InlineTrait(_) => seq![],
            _ => expr_parts(*e),
        },
        Piece::Stmt(s) => match s.kind {
            StmtKind::While { body, .. } | StmtKind::Loop { body } | StmtKind::For { body, .. } => seq![Piece::Expr(
                &body,
            )],
            StmtKind::LocalDecl { .. } => seq![],
            _ => stmt_parts(*s),
        },
    }
}

pub open spec fn dead_decl_steps<'a>(p: Piece<'a>) -> Seq<Piece<'a>> {
    match p {
        Piece::Stmt(s) => match s.kind {
            StmtKind::Assignment { value, .. } | StmtKind::CompoundAssignment { value, .. } => seq![Piece::Expr(
                &value,
            )],
            _ => inner_parts(p),
        },
        _ => inner_parts(p),
    }
}

pub open spec fn reachable_steps<'a>(p: Piece<'a>) -> Seq<Piece<'a>> {
    match p {
        Piece::Expr(e) | Piece::Tail(e) => match e.kind {
            ExprKind::Block { stmts, trailing } => if live_prefix(stmts@) < stmts@.len() {
                stmt_pieces(stmts@.take(live_prefix(stmts@) as int))
            } else {
                stmt_pieces(stmts@) + opt_box_pieces(trailing)
            },
            _ => inner_parts(p),
        },
        Piece::Stmt(_) => inner_parts(p),
    }
}

/// What stands directly below a place, with tail positions told apart.
pub open spec fn self_call_steps<'a>(p: Piece<'a>) -> Seq<Piece<'a>> {
    match p {
        Piece::Expr(e) | Piece::Tail(e) => match e.kind {
            ExprKind::Block { stmts, trailing } => stmt_pieces(stmts@) + like_opt(p, trailing),
            ExprKind::If { cond, then_branch, else_branch } => seq![Piece::Expr(&*cond), like(p, *then_branch)]
                + like_opt(p, else_branch),
            ExprKind::Match { scrutinee, arms } => seq![Piece::Expr(&*scrutinee)] + arm_pieces(p, arms@),
            _ => expr_parts(*e),
        },
        Piece::Stmt(s) => stmt_parts(*s),
    }
}

pub open spec fn carried_steps<'a>(p: Piece<'a>) -> Seq<Piece<'a>> {
    match p {
        Piece::Expr(e) | Piece::Tail(e) => match e.kind {
            ExprKind::Block { .. } | ExprKind::If { .. } | ExprKind::Match { .. } => tail_call_steps(p),
            ExprKind::RefOf(_)
            | ExprKind::Deref(_)
            | ExprKind::NonNullAssert(_)
            | ExprKind::Propagate(_)
            | ExprKind::Atomic(_)
            | ExprKind::Lazy(_)
            | ExprKind::Elvis { .. }
            | ExprKind::Assign { .. }
            | ExprKind::CompoundAssign { .. }
            | ExprKind::Slice { .. }
            | ExprKind::ArrayLit { .. }
            | ExprKind::RecordLit(_)
            | ExprKind::RecordExtend { .. } => expr_parts(*e),
            ExprKind::Call { args, .. }
            | ExprKind::MethodCall { args, .. }
            | ExprKind::SafeMethodCall { args, .. } => expr_pieces(args@),
            _ => seq![],
        },
        Piece::Stmt(_) => seq![],
    }
}

/// The places that the walk goes to from `p`, in order.
pub open spec fn steps<'a>(w: Walk, p: Piece<'a>) -> Seq<Piece<'a>> {
    match w {
        Walk::Full => parts(p),
        Walk::Calls => match p {
            Piece::Expr(e) | Piece::Tail(e) => if e.kind is InlineTrait {
                seq![]
            } else {
                parts(p)
            },
            Piece::Stmt(_) => parts(p),
        },
        Walk::Vars => match p {
            Piece::Stmt(s) => if s.kind is LocalDecl {
                seq![]
            } else {
                parts(p)
            },
            _ => parts(p),
        },
        Walk::Inner => inner_parts(p),
        Walk::NoDefer => match p {
            Piece::Stmt(s) => if s.kind is Defer {
                seq![]
            } else {
                inner_parts(p)
            },
            _ => inner_parts(p),
        },
        Walk::Effects => effect_steps(p),
        Walk::TailLambdas => tail_lambda_steps(p),
        Walk::TailCalls => tail_call_steps(p),
        Walk::DeadDecls => dead_decl_steps(p),
        Walk::Loops => loop_steps(p),
        Walk::Reachable => reachable_steps(p),
        Walk::SelfCalls => self_call_steps(p),
        Walk::Carried => carried_steps(p),
    }
}

// ---- a step leads to something smaller -------------------------------------

pub proof fn lemma_exprs_size(s: Seq<Expr>, i: int)
    requires
        0 <= i < s.len(),
    ensures
        expr_size(s[i]) <= exprs_size(s),
    decreases s.len(),
{
    if i < s.len() - 1 {
        lemma_exprs_size(s.drop_last(), i);
    }
}

pub proof fn lemma_stmts_size(s: Seq<Stmt>, i: int)
    requires
        0 <= i < s.len(),
    ensures
        stmt_size(s[i]) <= stmts_size(s),
    decreases s.len(),
{
    if i < s.len() - 1 {
        lemma_stmts_size(s.drop_last(), i);
    }
}

pub proof fn lemma_fields_size(s: Seq<FieldInit>, i: int)
    requires
        0 <= i < s.len(),
    ensures
        expr_size(s[i].value) <= fields_size(s),
    decreases s.len(),
{
    if i < s.len() - 1 {
        lemma_fields_size(s.drop_last(), i);
    }
}

pub proof fn lemma_arms_size(s: Seq<MatchArm>, i: int)
    requires
        0 <= i < s.len(),
    ensures
        expr_size(s[i].body) <= arms_size(s),
        opt_size(s[i].guard) <= arms_size(s),
        pattern_size(s[i].pattern) <= arms_size(s),
    decreases s.len(),
{
    if i < s.len() - 1 {
        lemma_arms_size(s.drop_last(), i);
    }
}

/// All places of `s` are at most `n` large.
pub open spec fn within<'a>(s: Seq<Piece<'a>>, n: nat) -> bool {
    forall|i: int| 0 <= i < s.len() ==> piece_size(#[trigger] s[i]) <= n
}

proof fn lemma_within_join<'a>(a: Seq<Piece<'a>>, m: nat, b: Seq<Piece<'a>>, n: nat)
    requires
        within(a, m),
        within(b, n),
    ensures
        within(a + b, m + n),
{
    assert forall|i: int| 0 <= i < (a + b).len() implies piece_size(#[trigger] (a + b)[i]) <= m + n by {
        if i < a.len() {
            assert(piece_size(a[i]) <= m);
        } else {
            assert(piece_size(b[i - a.len()]) <= n);
        }
    }
}

proof fn lemma_within_opts<'a>()
    ensures
        forall|o: Option<Expr>| within(#[trigger] opt_pieces(o), opt_size(o)),
        forall|o: Option<Box<Expr>>| within(#[trigger] opt_box_pieces(o), opt_box_size(o)),
        forall|p: Piece<'a>, o: Option<Box<Expr>>| within(#[trigger] like_opt(p, o), opt_box_size(o)),
{
    assert forall|o: Option<Expr>| within(#[trigger] opt_pieces(o), opt_size(o)) by {
        assert(o is Some ==> opt_size(o) == expr_size(o->0));
    }
    assert forall|o: Option<Box<Expr>>| within(#[trigger] opt_box_pieces(o), opt_box_size(o)) by {
        assert(o is Some ==> opt_box_size(o) == expr_size(*o->0));
    }
    assert forall|p: Piece<'a>, o: Option<Box<Expr>>| within(#[trigger] like_opt(p, o), opt_box_size(o)) by {
        assert(o is Some ==> opt_box_size(o) == expr_size(*o->0));
    }
}

proof fn lemma_within_lists<'a>()
    ensures
        forall|s: Seq<Expr>| within(#[trigger] expr_pieces(s), exprs_size(s)),
        forall|s: Seq<Stmt>| within(#[trigger] stmt_pieces(s), stmts_size(s)),
        forall|s: Seq<FieldInit>| within(#[trigger] field_pieces(s), fields_size(s)),
        forall|p: Piece<'a>, s: Seq<MatchArm>| within(#[trigger] arm_bodies(p, s), arms_size(s)),
{
    assert forall|s: Seq<Expr>| within(#[trigger] expr_pieces(s), exprs_size(s)) by {
        assert forall|i: int| 0 <= i < s.len() implies piece_size(#[trigger] expr_pieces(s)[i]) <= exprs_size(s) by {
            lemma_exprs_size(s, i);
        }
    }
    assert forall|s: Seq<Stmt>| within(#[trigger] stmt_pieces(s), stmts_size(s)) by {
        assert forall|i: int| 0 <= i < s.len() implies piece_size(#[trigger] stmt_pieces(s)[i]) <= stmts_size(s) by {
            lemma_stmts_size(s, i);
        }
    }
    assert forall|s: Seq<FieldInit>| within(#[trigger] field_pieces(s), fields_size(s)) by {
        assert forall|i: int| 0 <= i < s.len() implies piece_size(#[trigger] field_pieces(s)[i]) <= fields_size(
            s,
        ) by {
            lemma_fields_size(s, i);
        }
    }
    assert forall|p: Piece<'a>, s: Seq<MatchArm>| within(#[trigger] arm_bodies(p, s), arms_size(s)) by {
        assert forall|i: int| 0 <= i < s.len() implies piece_size(#[trigger] arm_bodies(p, s)[i]) <= arms_size(
            s,
        ) by {
            lemma_arms_size(s, i);
        }
    }
}

proof fn lemma_within_condition<'a>(p: Pattern)
    ensures
        within(condition_pieces(p), pattern_size(p)),
    decreases p,
{
    match p {
        Pattern::Constructor { patterns: s, .. } | Pattern::Record { fields: s } => {
            lemma_within_conditions(s@);
        },
        Pattern::OrPattern { left, right } => {
            lemma_within_condition(*left);
            lemma_within_condition(*right);
            lemma_within_join(
                condition_pieces(*left),
                pattern_size(*left),
                condition_pieces(*right),
                pattern_size(*right),
            );
        },
        Pattern::Guard { pattern, condition } => {
            lemma_within_condition(*pattern);
            lemma_within_join(
                condition_pieces(*pattern),
                pattern_size(*pattern),
                seq![Piece::Expr(&*condition)],
                expr_size(*condition),
            );
        },
        _ => {},
    }
}

proof fn lemma_within_conditions<'a>(s: Seq<Pattern>)
    ensures
        within(conditions_pieces(s), patterns_size(s)),
    decreases s,
{
    if s.len() > 0 {
        lemma_within_conditions(s.drop_last());
        lemma_within_condition(s.last());
        lemma_within_join(
            conditions_pieces(s.drop_last()),
            patterns_size(s.drop_last()),
            condition_pieces(s.last()),
            pattern_size(s.last()),
        );
    }
}

proof fn lemma_within_arms<'a>(p: Piece<'a>, s: Seq<MatchArm>)
    ensures
        within(arm_pieces(p, s), arms_size(s)),
    decreases s.len(),
{
    if s.len() > 0 {
        let rest = s.drop_last();
        let a = s.last();
        lemma_within_arms(p, rest);
        lemma_within_condition(a.pattern);
        lemma_within_opts();
        assert(arms_size(s) == arms_size(rest) + pattern_size(a.pattern) + opt_size(a.guard) + expr_size(a.body));
        lemma_within_join(arm_pieces(p, rest), arms_size(rest), condition_pieces(a.pattern), pattern_size(a.pattern));
        lemma_within_join(
            arm_pieces(p, rest) + condition_pieces(a.pattern),
            arms_size(rest) + pattern_size(a.pattern),
            opt_pieces(a.guard),
            opt_size(a.guard),
        );
        lemma_within_join(
            arm_pieces(p, rest) + condition_pieces(a.pattern) + opt_pieces(a.guard),
            arms_size(rest) + pattern_size(a.pattern) + opt_size(a.guard),
            seq![like(p, a.body)],
            expr_size(a.body),
        );
    }
}

proof fn lemma_within_interp<'a>(s: Seq<InterpolationPart>)
    ensures
        within(interp_pieces(s), interp_size(s)),
    decreases s.len(),
{
    if s.len() > 0 {
        lemma_within_interp(s.drop_last());
    }
}

proof fn lemma_within_selects<'a>(s: Seq<SelectArm>)
    ensures
        within(select_pieces(s), selects_size(s)),
    decreases s.len(),
{
    if s.len() > 0 {
        lemma_within_selects(s.drop_last());
    }
}

proof fn lemma_within_methods<'a>(s: Seq<Method>)
    ensures
        within(method_pieces(s), methods_size(s)),
    decreases s.len(),
{
    if s.len() > 0 {
        lemma_within_methods(s.drop_last());
        lemma_within_opts();
        assert(methods_size(s) == methods_size(s.drop_last()) + opt_size(s.last().body));
        lemma_within_join(
            method_pieces(s.drop_last()),
            methods_size(s.drop_last()),
            opt_pieces(s.last().body),
            opt_size(s.last().body),
        );
    }
}

proof fn lemma_within_values<'a>(s: Seq<Stmt>)
    ensures
        within(returned(s), stmts_size(s)),
    decreases s.len(),
{
    if s.len() > 0 {
        lemma_within_values(s.drop_last());
        lemma_within_opts();
        let t = s.last();
        assert(stmts_size(s) == stmts_size(s.drop_last()) + stmt_size(t));
        assert(t.kind matches StmtKind::Return { value } ==> stmt_size(t) == 1 + opt_size(value));
        let r: Seq<Piece<'a>> = match t.kind {
            StmtKind::Return { value } => opt_pieces(value),
            _ => seq![],
        };
        assert(within(r, stmt_size(t)));
        lemma_within_join(returned(s.drop_last()), stmts_size(s.drop_last()), r, stmt_size(t));
    }
}

proof fn lemma_live_prefix(s: Seq<Stmt>)
    ensures
        live_prefix(s) <= s.len(),
        forall|i: int| 0 <= i < live_prefix(s) ==> !is_terminator(#[trigger] s[i]),
        live_prefix(s) < s.len() ==> is_terminator(s[live_prefix(s) as int]),
    decreases s.len(),
{
    if s.len() > 0 {
        lemma_live_prefix(s.drop_last());
        assert forall|i: int| 0 <= i < live_prefix(s) implies !is_terminator(#[trigger] s[i]) by {
            if i < s.len() - 1 {
                assert(s[i] == s.drop_last()[i]);
            }
        }
    }
}

pub proof fn lemma_parts_within<'a>(p: Piece<'a>)
    ensures
        within(parts(p), (piece_size(p) - 1) as nat),
        within(inner_parts(p), (piece_size(p) - 1) as nat),
{
    lemma_within_lists();
    lemma_within_opts();
    match p {
        Piece::Expr(e) | Piece::Tail(e) => {
            let n = (expr_size(*e) - 1) as nat;
            match e.kind {
                ExprKind::Match { scrutinee, arms } => {
                    lemma_within_arms(Piece::Expr(e), arms@);
                    lemma_within_join(
                        seq![Piece::Expr(&*scrutinee)],
                        expr_size(*scrutinee),
                        arm_pieces(Piece::Expr(e), arms@),
                        arms_size(arms@),
                    );
                },
                ExprKind::StrInterp(s) => {
                    lemma_within_interp(s@);
                },
                ExprKind::Select(s) => {
                    lemma_within_selects(s@);
                },
                ExprKind::InlineTrait(s) => {
                    lemma_within_methods(s@);
                },
                ExprKind::Call { callee: x, args }
                | ExprKind::MethodCall { recv: x, args, .. }
                | ExprKind::SafeMethodCall { recv: x, args, .. } => {
                    lemma_within_join(seq![Piece::Expr(&*x)], expr_size(*x), expr_pieces(args@), exprs_size(args@));
                },
                ExprKind::ArrayLit { elements, fill } => {
                    let (f, k): (Seq<Piece<'a>>, nat) = match fill {
                        Some(f) => (
                            seq![Piece::Expr(&f.value), Piece::Expr(&f.count)],
                            expr_size(f.value) + expr_size(f.count),
                        ),
                        None => (seq![], 0),
                    };
                    lemma_within_join(expr_pieces(elements@), exprs_size(elements@), f, k);
                },
                ExprKind::RecordExtend { base, updates } => {
                    lemma_within_join(
                        seq![Piece::Expr(&*base)],
                        expr_size(*base),
                        field_pieces(updates@),
                        fields_size(updates@),
                    );
                },
                ExprKind::If { cond, then_branch, else_branch } => {
                    lemma_within_join(
                        seq![Piece::Expr(&*cond), Piece::Expr(&*then_branch)],
                        expr_size(*cond) + expr_size(*then_branch),
                        opt_box_pieces(else_branch),
                        opt_box_size(else_branch),
                    );
                },
                ExprKind::Block { stmts, trailing } => {
                    lemma_within_join(
                        stmt_pieces(stmts@),
                        stmts_size(stmts@),
                        opt_box_pieces(trailing),
                        opt_box_size(trailing),
                    );
                    lemma_within_join(
                        opt_box_pieces(trailing),
                        opt_box_size(trailing),
                        stmt_pieces(stmts@),
                        stmts_size(stmts@),
                    );
                },
                _ => {},
            }
        },
        Piece::Stmt(s) => {},
    }
}

proof fn lemma_self_call_steps_within<'a>(p: Piece<'a>)
    ensures
        within(self_call_steps(p), (piece_size(p) - 1) as nat),
{
    lemma_within_lists();
    lemma_within_opts();
    lemma_parts_within(p);
    match p {
        Piece::Expr(e) | Piece::Tail(e) => match e.kind {
            ExprKind::Match { scrutinee, arms } => {
                lemma_within_arms(p, arms@);
                lemma_within_join(
                    seq![Piece::Expr(&*scrutinee)],
                    expr_size(*scrutinee),
                    arm_pieces(p, arms@),
                    arms_size(arms@),
                );
            },
            ExprKind::If { cond, then_branch, else_branch } => {
                lemma_within_join(
                    seq![Piece::Expr(&*cond), like(p, *then_branch)],
                    expr_size(*cond) + expr_size(*then_branch),
                    like_opt(p, else_branch),
                    opt_box_size(else_branch),
                );
            },
            ExprKind::Block { stmts, trailing } => {
                lemma_within_join(
                    stmt_pieces(stmts@),
                    stmts_size(stmts@),
                    like_opt(p, trailing),
                    opt_box_size(trailing),
                );
            },
            _ => {},
        },
        Piece::Stmt(_) => {},
    }
}

proof fn lemma_tail_steps_within<'a>(p: Piece<'a>)
    ensures
        within(tail_lambda_steps(p), (piece_size(p) - 1) as nat),
        within(tail_call_steps(p), (piece_size(p) - 1) as nat),
{
    lemma_within_lists();
    lemma_within_opts();
    match p {
        Piece::Expr(e) | Piece::Tail(e) => match e.kind {
            ExprKind::Match { scrutinee, arms } => {
                assert(within(arm_bodies(Piece::Expr(e), arms@), arms_size(arms@)));
            },
            ExprKind::If { cond, then_branch, else_branch } => {
                lemma_within_join(
                    seq![Piece::Expr(&*then_branch)],
                    expr_size(*then_branch),
                    opt_box_pieces(else_branch),
                    opt_box_size(else_branch),
                );
            },
            ExprKind::Block { stmts, trailing } => {
                lemma_within_values(stmts@);
                lemma_within_join(
                    returned(stmts@),
                    stmts_size(stmts@),
                    opt_box_pieces(trailing),
                    opt_box_size(trailing),
                );
            },
            _ => {},
        },
        Piece::Stmt(_) => {},
    }
}

/// Whether the two are one place in the tree, in a tail position or not.
pub open spec fn same_place<'a>(a: Piece<'a>, b: Piece<'a>) -> bool {
    match (a, b) {
        (Piece::Stmt(s), Piece::Stmt(t)) => s == t,
        (Piece::Stmt(_), _) => false,
        (_, Piece::Stmt(_)) => false,
        (Piece::Expr(e) | Piece::Tail(e), Piece::Expr(f) | Piece::Tail(f)) => e == f,
    }
}

proof fn lemma_same_arms<'a>(p: Piece<'a>, q: Piece<'a>, s: Seq<MatchArm>)
    ensures
        arm_pieces(p, s).len() == arm_pieces(q, s).len(),
        forall|i: int| 0 <= i < arm_pieces(p, s).len() ==> same_place(#[trigger] arm_pieces(p, s)[i], arm_pieces(q, s)[i]),
    decreases s.len(),
{
    if s.len() > 0 {
        let rest = s.drop_last();
        let a = s.last();
        lemma_same_arms(p, q, rest);
        let k = arm_pieces(p, rest).len() as int;
        let middle: Seq<Piece<'a>> = condition_pieces(a.pattern) + opt_pieces(a.guard);
        assert(arm_pieces(p, s) =~= arm_pieces(p, rest) + middle + seq![like(p, a.body)]);
        assert(arm_pieces(q, s) =~= arm_pieces(q, rest) + middle + seq![like(q, a.body)]);
        assert forall|i: int| 0 <= i < arm_pieces(p, s).len() implies same_place(
            #[trigger] arm_pieces(p, s)[i],
            arm_pieces(q, s)[i],
        ) by {
            if i < k {
                assert(same_place(arm_pieces(p, rest)[i], arm_pieces(q, rest)[i]));
            }
        }
    }
}

/// Telling tail positions apart leaves out nothing below a place.
pub proof fn lemma_self_call_steps_are_parts<'a>(p: Piece<'a>, q: Piece<'a>)
    requires
        same_place(p, q),
    ensures
        parts(p).len() == self_call_steps(q).len(),
        forall|i: int| 0 <= i < parts(p).len() ==> same_place(#[trigger] parts(p)[i], self_call_steps(q)[i]),
{
    match p {
        Piece::Expr(e) | Piece::Tail(e) => match e.kind {
            ExprKind::Match { scrutinee, arms } => {
                lemma_same_arms(Piece::Expr(e), q, arms@);
                assert forall|i: int| 0 <= i < parts(p).len() implies same_place(
                    #[trigger] parts(p)[i],
                    self_call_steps(q)[i],
                ) by {
                    if i > 0 {
                        assert(same_place(arm_pieces(Piece::Expr(e), arms@)[i - 1], arm_pieces(q, arms@)[i - 1]));
                    }
                }
            },
            _ => {},
        },
        Piece::Stmt(_) => {},
    }
}

pub proof fn lemma_read_step_is_smaller<'a>(dead: Set<u32>, p: Piece<'a>, i: int)
    requires
        0 <= i < read_steps(dead, p).len(),
    ensures
        piece_size(read_steps(dead, p)[i]) < piece_size(p),
{
    lemma_parts_within(p);
    let n = (piece_size(p) - 1) as nat;
    assert(within(read_steps(dead, p), n));
    assert(piece_size(read_steps(dead, p)[i]) <= n);
}

/// Each place that a walk goes to from `p` is smaller than `p`.
pub proof fn lemma_step_is_smaller<'a>(w: Walk, p: Piece<'a>, i: int)
    requires
        0 <= i < steps(w, p).len(),
    ensures
        piece_size(steps(w, p)[i]) < piece_size(p),
{
    lemma_parts_within(p);
    lemma_self_call_steps_within(p);
    lemma_tail_steps_within(p);
    lemma_within_lists();
    let n = (piece_size(p) - 1) as nat;
    match p {
        Piece::Expr(e) | Piece::Tail(e) => match e.kind {
            ExprKind::Block { stmts, trailing } => {
                lemma_live_prefix(stmts@);
                let k = live_prefix(stmts@) as int;
                assert forall|j: int| 0 <= j < k implies piece_size(#[trigger] stmt_pieces(stmts@.take(k))[j]) <= n by {
                    lemma_stmts_size(stmts@, j);
                }
            },
            _ => {},
        },
        Piece::Stmt(_) => {},
    }
    assert(within(steps(w, p), n));
}

// ---- preorder --------------------------------------------------------------

/// The places that the walk reaches from `p`, each before what it leads to.
pub open spec fn reached<'a>(w: Walk, p: Piece<'a>) -> Seq<Piece<'a>>
    decreases piece_size(p), steps(w, p).len() + 1,
{
    seq![p] + reached_below(w, p, steps(w, p).len())
}

/// The places that the walk reaches by the first `k` steps from `p`.
pub open spec fn reached_below<'a>(w: Walk, p: Piece<'a>, k: nat) -> Seq<Piece<'a>>
    decreases piece_size(p), k,
    via reached_below_decreases
{
    if k == 0 || k > steps(w, p).len() {
        seq![]
    } else {
        reached_below(w, p, (k - 1) as nat) + reached(w, steps(w, p)[k - 1])
    }
}

#[via_fn]
proof fn reached_below_decreases<'a>(w: Walk, p: Piece<'a>, k: nat) {
    if k == 0 || k > steps(w, p).len() {
    } else {
        lemma_step_is_smaller(w, p, k - 1);
    }
}


pub proof fn lemma_reached_below<'a>(w: Walk, p: Piece<'a>, k: nat, x: Piece<'a>)
    requires
        k <= steps(w, p).len(),
    ensures
        reached_below(w, p, k).contains(x) <==> exists|i: int|
            0 <= i < k && (#[trigger] reached(w, steps(w, p)[i])).contains(x),
    decreases k,
{
    if k > 0 {
        let n = (k - 1) as nat;
        lemma_reached_below(w, p, n, x);
        let a = reached_below(w, p, n);
        let b = reached(w, steps(w, p)[k - 1]);
        assert(reached_below(w, p, k) == a + b);
        if a.contains(x) {
            let j = choose|j: int| 0 <= j < a.len() && a[j] == x;
            assert((a + b)[j] == x);
        }
        if b.contains(x) {
            let j = choose|j: int| 0 <= j < b.len() && b[j] == x;
            assert((a + b)[a.len() + j] == x);
        }
        if (a + b).contains(x) {
            let j = choose|j: int| 0 <= j < (a + b).len() && (a + b)[j] == x;
            if j < a.len() {
                assert(a[j] == x);
            } else {
                assert(b[j - a.len()] == x);
            }
        }
    }
}

/// A walk reaches `p` itself, and what it reaches from the places that it goes
/// to from `p`; nothing else.
pub proof fn law_reached<'a>(w: Walk, p: Piece<'a>, x: Piece<'a>)
    ensures
        reached(w, p).contains(x) <==> x == p || exists|i: int|
            0 <= i < steps(w, p).len() && (#[trigger] reached(w, steps(w, p)[i])).contains(x),
{
    let rest = reached_below(w, p, steps(w, p).len());
    lemma_reached_below(w, p, steps(w, p).len(), x);
    assert(reached(w, p) == seq![p] + rest);
    assert(reached(w, p)[0] == p);
    if rest.contains(x) {
        let j = choose|j: int| 0 <= j < rest.len() && rest[j] == x;
        assert(reached(w, p)[j + 1] == x);
    }
    if reached(w, p).contains(x) && x != p {
        let j = choose|j: int| 0 <= j < reached(w, p).len() && reached(w, p)[j] == x;
        assert(rest[j - 1] == x);
    }
}

/// What a walk reaches from a place that it reaches, it reaches.
pub proof fn law_reached_is_transitive<'a>(w: Walk, p: Piece<'a>, q: Piece<'a>, x: Piece<'a>)
    requires
        reached(w, p).contains(q),
        reached(w, q).contains(x),
    ensures
        reached(w, p).contains(x),
    decreases piece_size(p),
{
    law_reached(w, p, q);
    law_reached(w, p, x);
    if q != p {
        let i = choose|i: int| 0 <= i < steps(w, p).len() && (#[trigger] reached(w, steps(w, p)[i])).contains(q);
        lemma_step_is_smaller(w, p, i);
        law_reached_is_transitive(w, steps(w, p)[i], q, x);
    }
}

/// What a walk reaches is no larger than where it starts.
pub proof fn law_reached_is_inside<'a>(w: Walk, p: Piece<'a>, x: Piece<'a>)
    requires
        reached(w, p).contains(x),
    ensures
        x == p || piece_size(x) < piece_size(p),
    decreases piece_size(p),
{
    law_reached(w, p, x);
    if x != p {
        let i = choose|i: int| 0 <= i < steps(w, p).len() && (#[trigger] reached(w, steps(w, p)[i])).contains(x);
        lemma_step_is_smaller(w, p, i);
        law_reached_is_inside(w, steps(w, p)[i], x);
    }
}

// ---- taking the steps ------------------------------------------------------

pub fn ident_of(e: &Expr) -> (r: Option<&String>)
    ensures
        match r {
            Some(n) => e.kind == ExprKind::Ident(*n),
            None => !is_ident(*e),
        },
{
    match &e.kind {
        ExprKind::Ident(n) => Some(n),
        _ => None,
    }
}

pub fn calls(e: &Expr, name: &String) -> (r: bool)
    ensures
        r == calls_name(*e, name@),
{
    match &e.kind {
        ExprKind::Call { callee, .. } => match &callee.kind {
            ExprKind::Ident(n) => *n == *name,
            _ => false,
        },
        _ => false,
    }
}

fn ends_block(s: &Stmt) -> (r: bool)
    ensures
        r == is_terminator(*s),
{
    match &s.kind {
        StmtKind::Return { .. } | StmtKind::Break | StmtKind::Continue | StmtKind::Throw { .. } => true,
        _ => false,
    }
}

/// Number of statements in front of the one that ends the block.
pub fn count_live(s: &Vec<Stmt>) -> (n: usize)
    ensures
        n == live_prefix(s@),
        n <= s@.len(),
{
    let mut i: usize = 0;
    while i < s.len()
        invariant
            i <= s@.len(),
            live_prefix(s@.take(i as int)) == i,
        decreases s@.len() - i,
    {
        assert(s@.take(i + 1).drop_last() =~= s@.take(i as int));
        if ends_block(&s[i]) {
            let ghost k = i as int + 1;
            assert(live_prefix(s@.take(k)) == i);
            proof {
                lemma_live_prefix_stays(s@, k);
            }
            return i;
        }
        i = i + 1;
    }
    assert(s@.take(i as int) =~= s@);
    i
}

proof fn lemma_live_prefix_stays(s: Seq<Stmt>, k: int)
    requires
        0 <= k <= s.len(),
        live_prefix(s.take(k)) < k,
    ensures
        live_prefix(s) == live_prefix(s.take(k)),
    decreases s.len(),
{
    if k < s.len() {
        assert(s.drop_last().take(k) =~= s.take(k));
        lemma_live_prefix_stays(s.drop_last(), k);
    } else {
        assert(s.take(k) =~= s);
    }
}

fn push_like_opt<'a>(out: &mut Vec<Piece<'a>>, p: Piece<'a>, o: &'a Option<Box<Expr>>)
    ensures
        final(out)@ == old(out)@ + like_opt(p, *o),
{
    if let Some(e) = o {
        out.push(like_piece(p, e));
    }
    assert(out@ =~= old(out)@ + like_opt(p, *o));
}

fn push_arm_bodies<'a>(out: &mut Vec<Piece<'a>>, p: Piece<'a>, s: &'a Vec<MatchArm>)
    ensures
        final(out)@ == old(out)@ + arm_bodies(p, s@),
{
    let mut i: usize = 0;
    while i < s.len()
        invariant
            i <= s@.len(),
            out@ == old(out)@ + arm_bodies(p, s@.take(i as int)),
        decreases s@.len() - i,
    {
        out.push(like_piece(p, &s[i].body));
        i = i + 1;
        assert(out@ =~= old(out)@ + arm_bodies(p, s@.take(i as int)));
    }
    assert(s@.take(i as int) =~= s@);
}

fn push_returned<'a>(out: &mut Vec<Piece<'a>>, s: &'a Vec<Stmt>)
    ensures
        final(out)@ == old(out)@ + returned(s@),
{
    let mut i: usize = 0;
    assert(out@ =~= old(out)@ + returned(s@.take(0)));
    while i < s.len()
        invariant
            i <= s@.len(),
            out@ == old(out)@ + returned(s@.take(i as int)),
        decreases s@.len() - i,
    {
        assert(s@.take(i + 1).drop_last() =~= s@.take(i as int));
        if let StmtKind::Return { value } = &s[i].kind {
            push_opt(out, value);
        }
        i = i + 1;
        assert(out@ =~= old(out)@ + returned(s@.take(i as int)));
    }
    assert(s@.take(i as int) =~= s@);
}

fn push_inner<'a>(out: &mut Vec<Piece<'a>>, p: Piece<'a>)
    ensures
        final(out)@ == old(out)@ + inner_parts(p),
{
    match p {
        Piece::Expr(e) | Piece::Tail(e) => match &e.kind {
            ExprKind::Lambda { .. } | ExprKind::InlineTrait(_) => {},
            ExprKind::Block { stmts, trailing } => {
                push_opt_box(out, trailing);
                push_stmts(out, stmts);
            },
            _ => push_expr_parts(out, e),
        },
        Piece::Stmt(s) => match &s.kind {
            StmtKind::LocalDecl { .. } => {},
            _ => push_stmt_parts(out, s),
        },
    }
    assert(out@ =~= old(out)@ + inner_parts(p));
}

fn push_effect_steps<'a>(out: &mut Vec<Piece<'a>>, p: Piece<'a>)
    ensures
        final(out)@ == old(out)@ + effect_steps(p),
{
    match p {
        Piece::Expr(e) | Piece::Tail(e) => match &e.kind {
            ExprKind::Unary { .. }
            | ExprKind::RefOf(_)
            | ExprKind::Deref(_)
            | ExprKind::NonNullAssert(_)
            | ExprKind::Binary { .. }
            | ExprKind::If { .. }
            | ExprKind::Block { .. }
            | ExprKind::FieldAccess { .. }
            | ExprKind::SafeAccess { .. }
            | ExprKind::MethodCall { .. }
            | ExprKind::SafeMethodCall { .. }
            | ExprKind::ArrayLit { .. }
            | ExprKind::RecordLit(_)
            | ExprKind::RecordExtend { .. }
            | ExprKind::Elvis { .. } => push_expr_parts(out, e),
            ExprKind::Call { args, .. } => push_exprs(out, args),
            _ => {},
        },
        Piece::Stmt(s) => match &s.kind {
            StmtKind::Expression { .. } | StmtKind::ValDecl { .. } | StmtKind::VarDecl { .. } => {
                push_stmt_parts(out, s)
            },
            _ => {},
        },
    }
    assert(out@ =~= old(out)@ + effect_steps(p));
}

fn push_tail_lambda_steps<'a>(out: &mut Vec<Piece<'a>>, p: Piece<'a>)
    ensures
        final(out)@ == old(out)@ + tail_lambda_steps(p),
{
    match p {
        Piece::Expr(e) | Piece::Tail(e) => match &e.kind {
            ExprKind::Block { stmts, trailing } => {
                push_returned(out, stmts);
                push_opt_box(out, trailing);
            },
            ExprKind::If { then_branch, else_branch, .. } => {
                out.push(Piece::Expr(then_branch));
                push_opt_box(out, else_branch);
            },
            ExprKind::Match { arms, .. } => push_arm_bodies(out, Piece::Expr(e), arms),
            ExprKind::Elvis { rhs, .. } => out.push(Piece::Expr(rhs)),
            _ => {},
        },
        Piece::Stmt(_) => {},
    }
    assert(out@ =~= old(out)@ + tail_lambda_steps(p));
}

fn push_tail_call_steps<'a>(out: &mut Vec<Piece<'a>>, p: Piece<'a>)
    ensures
        final(out)@ == old(out)@ + tail_call_steps(p),
{
    match p {
        Piece::Expr(e) | Piece::Tail(e) => match &e.kind {
            ExprKind::Block { trailing, .. } => push_opt_box(out, trailing),
            ExprKind::If { then_branch, else_branch, .. } => {
                out.push(Piece::Expr(then_branch));
                push_opt_box(out, else_branch);
            },
            ExprKind::Match { arms, .. } => push_arm_bodies(out, Piece::Expr(e), arms),
            _ => {},
        },
        Piece::Stmt(_) => {},
    }
    assert(out@ =~= old(out)@ + tail_call_steps(p));
}

pub fn push_read_steps<'a>(out: &mut Vec<Piece<'a>>, dead: &IdSet, p: Piece<'a>)
    ensures
        final(out)@ == old(out)@ + read_steps(dead@, p),
{
    match p {
        Piece::Expr(e) | Piece::Tail(e) => match &e.kind {
            ExprKind::Assign { target, value } => {
                if ident_of(target).is_some() {
                    out.push(Piece::Expr(value));
                } else {
                    push_parts(out, p);
                }
            },
            _ => push_parts(out, p),
        },
        Piece::Stmt(s) => {
            if !dead.contains(s.id.0) {
                match &s.kind {
                    StmtKind::Assignment { target, value } => {
                        if ident_of(target).is_some() {
                            out.push(Piece::Expr(value));
                        } else {
                            push_parts(out, p);
                        }
                    },
                    _ => push_parts(out, p),
                }
            }
        },
    }
    assert(out@ =~= old(out)@ + read_steps(dead@, p));
}

fn push_loop_steps<'a>(out: &mut Vec<Piece<'a>>, p: Piece<'a>)
    ensures
        final(out)@ == old(out)@ + loop_steps(p),
{
    match p {
        Piece::Expr(e) | Piece::Tail(e) => match &e.kind {
            ExprKind::Lambda { .. } | ExprKind::InlineTrait(_) => {},
            _ => push_expr_parts(out, e),
        },
        Piece::Stmt(s) => match &s.kind {
            StmtKind::While { body, .. } | StmtKind::Loop { body } | StmtKind::For { body, .. } => {
                out.push(Piece::Expr(body))
            },
            StmtKind::LocalDecl { .. } => {},
            _ => push_stmt_parts(out, s),
        },
    }
    assert(out@ =~= old(out)@ + loop_steps(p));
}

fn push_dead_decl_steps<'a>(out: &mut Vec<Piece<'a>>, p: Piece<'a>)
    ensures
        final(out)@ == old(out)@ + dead_decl_steps(p),
{
    match p {
        Piece::Stmt(s) => match &s.kind {
            StmtKind::Assignment { value, .. } | StmtKind::CompoundAssignment { value, .. } => {
                out.push(Piece::Expr(value))
            },
            _ => push_inner(out, p),
        },
        _ => push_inner(out, p),
    }
    assert(out@ =~= old(out)@ + dead_decl_steps(p));
}

fn push_reachable_steps<'a>(out: &mut Vec<Piece<'a>>, p: Piece<'a>)
    ensures
        final(out)@ == old(out)@ + reachable_steps(p),
{
    match p {
        Piece::Expr(e) | Piece::Tail(e) => match &e.kind {
            ExprKind::Block { stmts, trailing } => {
                let n = count_live(stmts);
                let mut i: usize = 0;
                while i < n
                    invariant
                        i <= n <= stmts@.len(),
                        out@ == old(out)@ + stmt_pieces(stmts@.take(i as int)),
                    decreases n - i,
                {
                    out.push(Piece::Stmt(&stmts[i]));
                    i = i + 1;
                    assert(out@ =~= old(out)@ + stmt_pieces(stmts@.take(i as int)));
                }
                if n == stmts.len() {
                    assert(stmts@.take(n as int) =~= stmts@);
                    push_opt_box(out, trailing);
                }
            },
            _ => push_inner(out, p),
        },
        Piece::Stmt(_) => push_inner(out, p),
    }
    assert(out@ =~= old(out)@ + reachable_steps(p));
}

fn push_self_call_steps<'a>(out: &mut Vec<Piece<'a>>, p: Piece<'a>)
    ensures
        final(out)@ == old(out)@ + self_call_steps(p),
{
    match p {
        Piece::Expr(e) | Piece::Tail(e) => match &e.kind {
            ExprKind::Block { stmts, trailing } => {
                push_stmts(out, stmts);
                push_like_opt(out, p, trailing);
            },
            ExprKind::If { cond, then_branch, else_branch } => {
                out.push(Piece::Expr(cond));
                out.push(like_piece(p, then_branch));
                push_like_opt(out, p, else_branch);
            },
            ExprKind::Match { scrutinee, arms } => {
                out.push(Piece::Expr(scrutinee));
                push_arms(out, p, arms);
            },
            _ => push_expr_parts(out, e),
        },
        Piece::Stmt(s) => push_stmt_parts(out, s),
    }
    assert(out@ =~= old(out)@ + self_call_steps(p));
}

fn push_carried_steps<'a>(out: &mut Vec<Piece<'a>>, p: Piece<'a>)
    ensures
        final(out)@ == old(out)@ + carried_steps(p),
{
    match p {
        Piece::Expr(e) | Piece::Tail(e) => match &e.kind {
            ExprKind::Block { .. } | ExprKind::If { .. } | ExprKind::Match { .. } => push_tail_call_steps(out, p),
            ExprKind::RefOf(_)
            | ExprKind::Deref(_)
            | ExprKind::NonNullAssert(_)
            | ExprKind::Propagate(_)
            | ExprKind::Atomic(_)
            | ExprKind::Lazy(_)
            | ExprKind::Elvis { .. }
            | ExprKind::Assign { .. }
            | ExprKind::CompoundAssign { .. }
            | ExprKind::Slice { .. }
            | ExprKind::ArrayLit { .. }
            | ExprKind::RecordLit(_)
            | ExprKind::RecordExtend { .. } => push_expr_parts(out, e),
            ExprKind::Call { args, .. }
            | ExprKind::MethodCall { args, .. }
            | ExprKind::SafeMethodCall { args, .. } => push_exprs(out, args),
            _ => {},
        },
        Piece::Stmt(_) => {},
    }
    assert(out@ =~= old(out)@ + carried_steps(p));
}

fn push_steps<'a>(out: &mut Vec<Piece<'a>>, w: Walk, p: Piece<'a>)
    ensures
        final(out)@ == old(out)@ + steps(w, p),
{
    match w {
        Walk::Full => push_parts(out, p),
        Walk::Calls => {
            let skip: bool = match p {
                Piece::Expr(e) | Piece::Tail(e) => matches!(e.kind, ExprKind::InlineTrait(_)),
                Piece::Stmt(_) => false,
            };
            if !skip {
                push_parts(out, p);
            }
        },
        Walk::Vars => {
            let skip: bool = match p {
                Piece::Stmt(s) => matches!(s.kind, StmtKind::LocalDecl { .. }),
                _ => false,
            };
            if !skip {
                push_parts(out, p);
            }
        },
        Walk::Inner => push_inner(out, p),
        Walk::NoDefer => {
            let skip: bool = match p {
                Piece::Stmt(s) => matches!(s.kind, StmtKind::Defer { .. }),
                _ => false,
            };
            if !skip {
                push_inner(out, p);
            }
        },
        Walk::Effects => push_effect_steps(out, p),
        Walk::TailLambdas => push_tail_lambda_steps(out, p),
        Walk::TailCalls => push_tail_call_steps(out, p),
        Walk::DeadDecls => push_dead_decl_steps(out, p),
        Walk::Loops => push_loop_steps(out, p),
        Walk::Reachable => push_reachable_steps(out, p),
        Walk::SelfCalls => push_self_call_steps(out, p),
        Walk::Carried => push_carried_steps(out, p),
    }
    assert(out@ =~= old(out)@ + steps(w, p));
}

pub fn push_reached<'a>(out: &mut Vec<Piece<'a>>, w: Walk, p: Piece<'a>)
    ensures
        final(out)@ == old(out)@ + reached(w, p),
    decreases piece_size(p),
{
    let mut next: Vec<Piece<'a>> = Vec::new();
    push_steps(&mut next, w, p);
    assert(next@ =~= steps(w, p));
    out.push(p);
    assert(out@ =~= old(out)@ + seq![p] + reached_below(w, p, 0));
    let mut i: usize = 0;
    while i < next.len()
        invariant
            i <= next@.len(),
            next@ == steps(w, p),
            out@ == old(out)@ + seq![p] + reached_below(w, p, i as nat),
        decreases next@.len() - i,
    {
        proof {
            lemma_step_is_smaller(w, p, i as int);
        }
        push_reached(out, w, next[i]);
        i = i + 1;
        assert(out@ =~= old(out)@ + seq![p] + reached_below(w, p, i as nat));
    }
    assert(out@ =~= old(out)@ + reached(w, p));
}

/// The places that the walk reaches from `p`, each before what it leads to.
pub fn reach<'a>(w: Walk, p: Piece<'a>) -> (out: Vec<Piece<'a>>)
    ensures
        out@ == reached(w, p),
{
    let mut out: Vec<Piece<'a>> = Vec::new();
    push_reached(&mut out, w, p);
    assert(out@ =~= reached(w, p));
    out
}

// ---- laws ------------------------------------------------------------------

proof fn lemma_part_of_sum<'a>(a: Seq<Piece<'a>>, b: Seq<Piece<'a>>, x: Piece<'a>)
    requires
        a.contains(x) || b.contains(x),
    ensures
        (a + b).contains(x),
{
    if a.contains(x) {
        let i = choose|i: int| 0 <= i < a.len() && a[i] == x;
        assert((a + b)[i] == x);
    } else {
        let i = choose|i: int| 0 <= i < b.len() && b[i] == x;
        assert((a + b)[a.len() + i] == x);
    }
}

proof fn lemma_step_is_reached<'a>(w: Walk, p: Piece<'a>, x: Piece<'a>)
    requires
        steps(w, p).contains(x),
    ensures
        reached(w, p).contains(x),
{
    let i = choose|i: int| 0 <= i < steps(w, p).len() && steps(w, p)[i] == x;
    law_reached(w, x, x);
    assert(reached(w, steps(w, p)[i]).contains(x));
    law_reached(w, p, x);
}

proof fn lemma_arm_is_a_piece<'a>(p: Piece<'a>, s: Seq<MatchArm>, k: int)
    requires
        0 <= k < s.len(),
    ensures
        arm_pieces(p, s).contains(like(p, s[k].body)),
        s[k].guard is Some ==> arm_pieces(p, s).contains(Piece::Expr(&s[k].guard->0)),
        forall|x: Piece<'a>| #[trigger]
            condition_pieces(s[k].pattern).contains(x) ==> arm_pieces(p, s).contains(x),
    decreases s.len(),
{
    let r = s.drop_last();
    let a = arm_pieces(p, r);
    let b = condition_pieces(s.last().pattern);
    let c = opt_pieces(s.last().guard);
    let d = seq![like(p, s.last().body)];
    if k < s.len() - 1 {
        lemma_arm_is_a_piece(p, r, k);
        assert(r[k] == s[k]);
        let y = like(p, s[k].body);
        lemma_part_of_sum(a, b, y);
        lemma_part_of_sum(a + b, c, y);
        lemma_part_of_sum(a + b + c, d, y);
        if s[k].guard is Some {
            let y = Piece::Expr(&s[k].guard->0);
            lemma_part_of_sum(a, b, y);
            lemma_part_of_sum(a + b, c, y);
            lemma_part_of_sum(a + b + c, d, y);
        }
        assert forall|y: Piece<'a>| #[trigger] condition_pieces(s[k].pattern).contains(y) implies arm_pieces(
            p,
            s,
        ).contains(y) by {
            lemma_part_of_sum(a, b, y);
            lemma_part_of_sum(a + b, c, y);
            lemma_part_of_sum(a + b + c, d, y);
        }
    } else {
        let y = like(p, s[k].body);
        assert(d[0] == y);
        lemma_part_of_sum(a + b + c, d, y);
        if s[k].guard is Some {
            let y = Piece::Expr(&s[k].guard->0);
            assert(c[0] == y);
            lemma_part_of_sum(a + b, c, y);
            lemma_part_of_sum(a + b + c, d, y);
        }
        assert forall|y: Piece<'a>| #[trigger] condition_pieces(s[k].pattern).contains(y) implies arm_pieces(
            p,
            s,
        ).contains(y) by {
            lemma_part_of_sum(a, b, y);
            lemma_part_of_sum(a + b, c, y);
            lemma_part_of_sum(a + b + c, d, y);
        }
    }
}

proof fn lemma_interpolated_is_a_piece<'a>(s: Seq<InterpolationPart>, k: int, x: Expr)
    requires
        0 <= k < s.len(),
        s[k] == InterpolationPart::Expression(x),
    ensures
        interp_pieces::<'a>(s).contains(Piece::Expr(&x)),
    decreases s.len(),
{
    let a = interp_pieces::<'a>(s.drop_last());
    let b: Seq<Piece<'a>> = match s.last() {
        InterpolationPart::Expression(e) => seq![Piece::Expr(&e)],
        InterpolationPart::Text(_) => seq![],
    };
    let y = Piece::Expr(&x);
    if k < s.len() - 1 {
        assert(s.drop_last()[k] == s[k]);
        lemma_interpolated_is_a_piece(s.drop_last(), k, x);
    } else {
        assert(b[0] == y);
    }
    lemma_part_of_sum(a, b, y);
}

proof fn lemma_select_arm_is_a_piece<'a>(s: Seq<SelectArm>, k: int)
    requires
        0 <= k < s.len(),
    ensures
        match s[k] {
            SelectArm::Receive { channel_expr, body } => select_pieces::<'a>(s).contains(Piece::Expr(&channel_expr))
                && select_pieces::<'a>(s).contains(Piece::Expr(&body)),
            SelectArm::Timeout { duration, body } => select_pieces::<'a>(s).contains(Piece::Expr(&duration))
                && select_pieces::<'a>(s).contains(Piece::Expr(&body)),
        },
    decreases s.len(),
{
    let a = select_pieces::<'a>(s.drop_last());
    let b: Seq<Piece<'a>> = match s.last() {
        SelectArm::Receive { channel_expr, body } => seq![Piece::Expr(&channel_expr), Piece::Expr(&body)],
        SelectArm::Timeout { duration, body } => seq![Piece::Expr(&duration), Piece::Expr(&body)],
    };
    let (x, y) = match s[k] {
        SelectArm::Receive { channel_expr, body } => (channel_expr, body),
        SelectArm::Timeout { duration, body } => (duration, body),
    };
    if k < s.len() - 1 {
        assert(s.drop_last()[k] == s[k]);
        lemma_select_arm_is_a_piece(s.drop_last(), k);
    } else {
        assert(b[0] == Piece::Expr(&x));
        assert(b[1] == Piece::Expr(&y));
    }
    lemma_part_of_sum(a, b, Piece::Expr(&x));
    lemma_part_of_sum(a, b, Piece::Expr(&y));
}

proof fn lemma_method_is_a_piece<'a>(s: Seq<Method>, k: int)
    requires
        0 <= k < s.len(),
        s[k].body is Some,
    ensures
        method_pieces::<'a>(s).contains(Piece::Expr(&s[k].body->0)),
    decreases s.len(),
{
    let a = method_pieces::<'a>(s.drop_last());
    let b = opt_pieces::<'a>(s.last().body);
    let y = Piece::Expr(&s[k].body->0);
    if k < s.len() - 1 {
        assert(s.drop_last()[k] == s[k]);
        lemma_method_is_a_piece(s.drop_last(), k);
    } else {
        assert(b[0] == y);
    }
    lemma_part_of_sum(a, b, y);
}

/// The walks that go into everything of a scope go from an expression to each
/// of its operands, arguments, elements, fields, conditions, branches, arms,
/// guards and interpolated values.
pub proof fn law_walks_enter_subexpressions(w: Walk, e: Expr, x: Expr)
    requires
        w is Full || w is Calls || w is Vars || w is Inner || w is NoDefer || w is DeadDecls || w is Loops || w
            is SelfCalls || w is Effects && (e.kind is Unary || e.kind is RefOf || e.kind is Deref || e.kind
            is NonNullAssert || e.kind is Binary || e.kind is Elvis || e.kind is If || e.kind is Block || e.kind
            is FieldAccess || e.kind is SafeAccess || e.kind is MethodCall || e.kind is SafeMethodCall || e.kind
            is ArrayLit || e.kind is RecordLit || e.kind is RecordExtend),
        ({
            ||| e.kind matches ExprKind::Unary { operand } && *operand == x
            ||| e.kind matches ExprKind::RefOf(a) && *a == x
            ||| e.kind matches ExprKind::Deref(a) && *a == x
            ||| e.kind matches ExprKind::NonNullAssert(a) && *a == x
            ||| e.kind matches ExprKind::Propagate(a) && *a == x
            ||| e.kind matches ExprKind::Atomic(a) && *a == x
            ||| e.kind matches ExprKind::Lazy(a) && *a == x
            ||| e.kind matches ExprKind::FieldAccess { recv } && *recv == x
            ||| e.kind matches ExprKind::SafeAccess { recv } && *recv == x
            ||| e.kind matches ExprKind::Binary { lhs, rhs } && (*lhs == x || *rhs == x)
            ||| e.kind matches ExprKind::Elvis { lhs, rhs } && (*lhs == x || *rhs == x)
            ||| e.kind matches ExprKind::Assign { target, value } && (*target == x || *value == x)
            ||| e.kind matches ExprKind::CompoundAssign { target, value } && (*target == x || *value == x)
            ||| e.kind matches ExprKind::Index { recv, index } && (*recv == x || *index == x)
            ||| e.kind matches ExprKind::Call { callee, args } && (*callee == x || args@.contains(x))
            ||| e.kind matches ExprKind::MethodCall { recv, args, .. } && (*recv == x || args@.contains(x))
            ||| e.kind matches ExprKind::SafeMethodCall { recv, args, .. } && (*recv == x || args@.contains(x))
            ||| e.kind matches ExprKind::Slice { recv, start, end } && (*recv == x || *start == x || *end == x)
            ||| e.kind matches ExprKind::ArrayLit { elements, fill } && (elements@.contains(x) || fill is Some && (
            fill->0.value == x || fill->0.count == x))
            ||| e.kind matches ExprKind::RecordLit(fields) && exists|k: int|
                0 <= k < fields@.len() && (#[trigger] fields@[k]).value == x
            ||| e.kind matches ExprKind::RecordExtend { base, updates } && (*base == x || exists|k: int|
                0 <= k < updates@.len() && (#[trigger] updates@[k]).value == x)
            ||| e.kind matches ExprKind::If { cond, then_branch, else_branch } && (*cond == x || *then_branch == x
                || else_branch is Some && *(else_branch->0) == x)
            ||| e.kind matches ExprKind::Block { trailing, .. } && trailing is Some && *(trailing->0) == x
            ||| e.kind matches ExprKind::Match { scrutinee, arms } && (*scrutinee == x || exists|k: int|
                0 <= k < arms@.len() && ((#[trigger] arms@[k]).body == x || arms@[k].guard == Some(x)))
            ||| e.kind matches ExprKind::StrInterp(parts) && exists|k: int|
                0 <= k < parts@.len() && #[trigger] parts@[k] == InterpolationPart::Expression(x)
            ||| e.kind matches ExprKind::Select(arms) && exists|k: int|
                0 <= k < arms@.len() && match #[trigger] arms@[k] {
                    SelectArm::Receive { channel_expr, body } => channel_expr == x || body == x,
                    SelectArm::Timeout { duration, body } => duration == x || body == x,
                }
        }),
    ensures
        reached(w, Piece::Expr(&e)).contains(Piece::Expr(&x)),
{
    let p = Piece::Expr(&e);
    let y = Piece::Expr(&x);
    let s = steps(w, p);
    match e.kind {
        ExprKind::Call { callee: a, args }
        | ExprKind::MethodCall { recv: a, args, .. }
        | ExprKind::SafeMethodCall { recv: a, args, .. } => {
            let f = seq![Piece::Expr(&*a)];
            if *a == x {
                assert(f[0] == y);
            } else {
                let k = choose|k: int| 0 <= k < args@.len() && args@[k] == x;
                assert(expr_pieces(args@)[k] == y);
            }
            lemma_part_of_sum(f, expr_pieces(args@), y);
        },
        ExprKind::Slice { recv, start, end } => {
            assert(s[0] == Piece::Expr(&*recv) && s[1] == Piece::Expr(&*start) && s[2] == Piece::Expr(&*end));
        },
        ExprKind::ArrayLit { elements, fill } => {
            let f = match fill {
                Some(f) => seq![Piece::Expr(&f.value), Piece::Expr(&f.count)],
                None => seq![],
            };
            if elements@.contains(x) {
                let k = choose|k: int| 0 <= k < elements@.len() && elements@[k] == x;
                assert(expr_pieces(elements@)[k] == y);
            } else {
                assert(f[0] == Piece::Expr(&fill->0.value) && f[1] == Piece::Expr(&fill->0.count));
            }
            lemma_part_of_sum(expr_pieces(elements@), f, y);
        },
        ExprKind::RecordLit(fields) => {
            let k = choose|k: int| 0 <= k < fields@.len() && (#[trigger] fields@[k]).value == x;
            assert(s[k] == y);
        },
        ExprKind::RecordExtend { base, updates } => {
            let f = seq![Piece::Expr(&*base)];
            if *base == x {
                assert(f[0] == y);
            } else {
                let k = choose|k: int| 0 <= k < updates@.len() && (#[trigger] updates@[k]).value == x;
                assert(field_pieces(updates@)[k] == y);
            }
            lemma_part_of_sum(f, field_pieces(updates@), y);
        },
        ExprKind::If { cond, then_branch, else_branch } => {
            let f = seq![Piece::Expr(&*cond), Piece::Expr(&*then_branch)];
            let g = opt_box_pieces(else_branch);
            assert(like_opt(p, else_branch) == g);
            if *cond == x {
                assert(f[0] == y);
            } else if *then_branch == x {
                assert(f[1] == y);
            } else {
                assert(g[0] == y);
            }
            lemma_part_of_sum(f, g, y);
            assert(s == f + g);
        },
        ExprKind::Block { stmts, trailing } => {
            let g = opt_box_pieces(trailing);
            assert(like_opt(p, trailing) == g);
            assert(g[0] == y);
            lemma_part_of_sum(g, stmt_pieces(stmts@), y);
            lemma_part_of_sum(stmt_pieces(stmts@), g, y);
        },
        ExprKind::Match { scrutinee, arms } => {
            let f = seq![Piece::Expr(&*scrutinee)];
            let g = arm_pieces(p, arms@);
            if *scrutinee == x {
                assert(f[0] == y);
            } else {
                let k = choose|k: int|
                    0 <= k < arms@.len() && ((#[trigger] arms@[k]).body == x || arms@[k].guard == Some(x));
                lemma_arm_is_a_piece(p, arms@, k);
            }
            lemma_part_of_sum(f, g, y);
        },
        ExprKind::StrInterp(parts) => {
            let k = choose|k: int|
                0 <= k < parts@.len() && #[trigger] parts@[k] == InterpolationPart::Expression(x);
            lemma_interpolated_is_a_piece(parts@, k, x);
        },
        ExprKind::Select(arms) => {
            let k = choose|k: int|
                0 <= k < arms@.len() && match #[trigger] arms@[k] {
                    SelectArm::Receive { channel_expr, body } => channel_expr == x || body == x,
                    SelectArm::Timeout { duration, body } => duration == x || body == x,
                };
            lemma_select_arm_is_a_piece(arms@, k);
        },
        ExprKind::Binary { lhs: a, rhs: b }
        | ExprKind::Elvis { lhs: a, rhs: b }
        | ExprKind::Assign { target: a, value: b }
        | ExprKind::CompoundAssign { target: a, value: b }
        | ExprKind::Index { recv: a, index: b } => {
            assert(s[0] == Piece::Expr(&*a) && s[1] == Piece::Expr(&*b));
        },
        _ => {
            assert(s[0] == y);
        },
    }
    lemma_step_is_reached(w, p, y);
}

/// Those walks go from a block to each of its statements.
pub proof fn law_walks_enter_statements(w: Walk, e: Expr, k: int)
    requires
        w is Full || w is Calls || w is Vars || w is Inner || w is NoDefer || w is DeadDecls || w is Loops || w
            is SelfCalls || w is Effects,
        e.kind is Block,
        0 <= k < e.kind->stmts@.len(),
    ensures
        reached(w, Piece::Expr(&e)).contains(Piece::Stmt(&e.kind->stmts@[k])),
{
    let p = Piece::Expr(&e);
    if let ExprKind::Block { stmts, trailing } = e.kind {
        let y = Piece::Stmt(&stmts@[k]);
        assert(stmt_pieces(stmts@)[k] == y);
        lemma_part_of_sum(stmt_pieces(stmts@), opt_box_pieces(trailing), y);
        lemma_part_of_sum(opt_box_pieces(trailing), stmt_pieces(stmts@), y);
        lemma_part_of_sum(stmt_pieces(stmts@), like_opt(p, trailing), y);
        lemma_step_is_reached(w, p, y);
    }
}

/// From a statement they go to each expression in it. Only the walk that leaves
/// out what is deferred does not go to a deferred expression, the one for dead
/// declarations not to what is assigned to, and the one for loops not to a
/// loop's condition or iterable.
pub proof fn law_walks_enter_expressions_of_statements(w: Walk, s: Stmt, x: Expr)
    requires
        w is Full || w is Calls || w is Vars || w is Inner || w is NoDefer || w is DeadDecls || w is Loops || w
            is SelfCalls || w is Reachable || w is Effects && (s.kind is ValDecl || s.kind is VarDecl || s.kind
            is Expression),
        ({
            ||| s.kind matches StmtKind::ValDecl { value, .. } && value == x
            ||| s.kind matches StmtKind::VarDecl { value, .. } && value == x
            ||| s.kind matches StmtKind::Expression { expr } && expr == x
            ||| s.kind matches StmtKind::Throw { expr } && expr == x
            ||| s.kind matches StmtKind::Loop { body } && body == x
            ||| s.kind matches StmtKind::FieldAssignment { object, value } && (object == x || value == x)
            ||| s.kind matches StmtKind::Return { value } && value == Some(x)
            ||| s.kind matches StmtKind::Defer { expr } && expr == x && !(w is NoDefer)
            ||| s.kind matches StmtKind::Assignment { target, value } && (value == x || target == x && !(w is DeadDecls))
            ||| s.kind matches StmtKind::CompoundAssignment { target, value } && (value == x || target == x && !(w
                is DeadDecls))
            ||| s.kind matches StmtKind::For { iterable, body, .. } && (body == x || iterable == x && !(w is Loops))
            ||| s.kind matches StmtKind::While { condition, body } && (body == x || condition == x && !(w is Loops))
        }),
    ensures
        reached(w, Piece::Stmt(&s)).contains(Piece::Expr(&x)),
{
    let p = Piece::Stmt(&s);
    let y = Piece::Expr(&x);
    let t = steps(w, p);
    assert(t[0] == y || t[1] == y);
    assert(t.contains(y)) by {
        if t[0] == y {
        } else {
            assert(t[1] == y && t.len() == 2);
        }
    }
    lemma_step_is_reached(w, p, y);
}

/// The full walk goes into every other scope as well: lambdas, methods of inline
/// traits and local functions. The walk for calls leaves out inline traits, the
/// one for variables local functions.
pub proof fn law_walks_enter_scopes(w: Walk, e: Expr, s: Stmt, k: int)
    requires
        w is Full || w is Calls || w is Vars || w is SelfCalls,
    ensures
        e.kind matches ExprKind::Lambda { body, .. } ==> reached(w, Piece::Expr(&e)).contains(Piece::Expr(&*body)),
        e.kind matches ExprKind::InlineTrait(methods) ==> !(w is Calls) && 0 <= k < methods@.len() && methods@[k].body
            is Some ==> reached(w, Piece::Expr(&e)).contains(Piece::Expr(&methods@[k].body->0)),
        e.kind is InlineTrait && w is Calls ==> reached(w, Piece::Expr(&e)) == seq![Piece::Expr(&e)],
        s.kind matches StmtKind::LocalDecl { decl } ==> (*decl matches Decl::Fun(f) ==> !(w is Vars) ==> reached(
            w,
            Piece::Stmt(&s),
        ).contains(Piece::Expr(&f.body))),
        s.kind is LocalDecl && w is Vars ==> reached(w, Piece::Stmt(&s)) == seq![Piece::Stmt(&s)],
{
    let p = Piece::Expr(&e);
    let q = Piece::Stmt(&s);
    match e.kind {
        ExprKind::Lambda { body, .. } => {
            assert(steps(w, p)[0] == Piece::Expr(&*body));
            lemma_step_is_reached(w, p, Piece::Expr(&*body));
        },
        ExprKind::InlineTrait(methods) => {
            if !(w is Calls) {
                if 0 <= k < methods@.len() && methods@[k].body is Some {
                    lemma_method_is_a_piece(methods@, k);
                    lemma_step_is_reached(w, p, Piece::Expr(&methods@[k].body->0));
                }
            } else {
                lemma_end_of_walk(w, p);
            }
        },
        _ => {},
    }
    if let StmtKind::LocalDecl { decl } = s.kind {
        if w is Vars {
            lemma_end_of_walk(w, q);
        } else if let Decl::Fun(f) = *decl {
            assert(steps(w, q)[0] == Piece::Expr(&f.body));
            lemma_step_is_reached(w, q, Piece::Expr(&f.body));
        }
    }
}

proof fn lemma_end_of_walk<'a>(w: Walk, p: Piece<'a>)
    requires
        steps(w, p).len() == 0,
    ensures
        reached(w, p) == seq![p],
{
    assert(reached(w, p) == seq![p] + reached_below(w, p, steps(w, p).len()));
    assert(reached_below(w, p, 0).len() == 0);
    assert(reached(w, p) =~= seq![p]);
}

/// The walks of one scope go into no lambda, inline trait or local function, and
/// the one that leaves out what is deferred into no deferred expression.
pub proof fn law_inner_walks_stay_in_scope(w: Walk, e: Expr, s: Stmt)
    requires
        w is Inner || w is NoDefer || w is DeadDecls || w is Loops || w is Reachable,
    ensures
        e.kind is Lambda || e.kind is InlineTrait ==> reached(w, Piece::Expr(&e)) == seq![Piece::Expr(&e)],
        s.kind is LocalDecl || s.kind is Defer && w is NoDefer ==> reached(w, Piece::Stmt(&s)) == seq![Piece::Stmt(&s)],
{
    if e.kind is Lambda || e.kind is InlineTrait {
        lemma_end_of_walk(w, Piece::Expr(&e));
    }
    if s.kind is LocalDecl || s.kind is Defer && w is NoDefer {
        lemma_end_of_walk(w, Piece::Stmt(&s));
    }
}

/// The value of a body is that of the last expression of a block, of the
/// branches of an `if` and of the arms of a match; of nothing else. What a body
/// returns is also the right side of an elvis operator and what the `return`
/// statements of a block name.
pub proof fn law_tail_positions(w: Walk, e: Expr, x: Expr, k: int)
    requires
        w is TailCalls || w is TailLambdas || w is Carried,
    ensures
        e.kind matches ExprKind::Block { trailing, .. } ==> trailing is Some ==> reached(w, Piece::Expr(&e)).contains(
            Piece::Expr(&*(trailing->0)),
        ),
        e.kind matches ExprKind::If { then_branch, else_branch, .. } ==> {
            &&& reached(w, Piece::Expr(&e)).contains(Piece::Expr(&*then_branch))
            &&& else_branch is Some ==> reached(w, Piece::Expr(&e)).contains(Piece::Expr(&*(else_branch->0)))
        },
        e.kind matches ExprKind::Match { arms, .. } ==> 0 <= k < arms@.len() ==> reached(w, Piece::Expr(&e)).contains(
            Piece::Expr(&arms@[k].body),
        ),
        e.kind matches ExprKind::Elvis { rhs, .. } ==> !(w is TailCalls) ==> reached(w, Piece::Expr(&e)).contains(
            Piece::Expr(&*rhs),
        ),
        e.kind matches ExprKind::Block { stmts, .. } ==> w is TailLambdas && 0 <= k < stmts@.len() && stmts@[k].kind
            == (StmtKind::Return { value: Some(x) }) ==> reached(w, Piece::Expr(&e)).contains(Piece::Expr(&x)),
        w is TailCalls && !(e.kind is Block || e.kind is If || e.kind is Match) ==> reached(w, Piece::Expr(&e)) == seq![
            Piece::Expr(&e),
        ],
        w is TailLambdas && !(e.kind is Block || e.kind is If || e.kind is Match || e.kind is Elvis) ==> reached(
            w,
            Piece::Expr(&e),
        ) == seq![Piece::Expr(&e)],
{
    let p = Piece::Expr(&e);
    let s = steps(w, p);
    match e.kind {
        ExprKind::Block { stmts, trailing } => {
            if trailing is Some {
                let y = Piece::Expr(&*(trailing->0));
                assert(opt_box_pieces(trailing)[0] == y);
                lemma_part_of_sum(returned(stmts@), opt_box_pieces(trailing), y);
                lemma_step_is_reached(w, p, y);
            }
            if w is TailLambdas && 0 <= k < stmts@.len() && stmts@[k].kind == (StmtKind::Return { value: Some(x) }) {
                lemma_returned(stmts@, k, x);
                lemma_part_of_sum(returned(stmts@), opt_box_pieces(trailing), Piece::Expr(&x));
                lemma_step_is_reached(w, p, Piece::Expr(&x));
            }
        },
        ExprKind::If { then_branch, else_branch, .. } => {
            assert(s[0] == Piece::Expr(&*then_branch));
            lemma_step_is_reached(w, p, Piece::Expr(&*then_branch));
            if else_branch is Some {
                let y = Piece::Expr(&*(else_branch->0));
                assert(opt_box_pieces(else_branch)[0] == y);
                lemma_part_of_sum(seq![Piece::Expr(&*then_branch)], opt_box_pieces(else_branch), y);
                lemma_step_is_reached(w, p, y);
            }
        },
        ExprKind::Match { arms, .. } => {
            if 0 <= k < arms@.len() {
                assert(s[k] == Piece::Expr(&arms@[k].body));
                lemma_step_is_reached(w, p, Piece::Expr(&arms@[k].body));
            }
        },
        ExprKind::Elvis { lhs, rhs } => {
            if w is TailLambdas {
                assert(s[0] == Piece::Expr(&*rhs));
                lemma_step_is_reached(w, p, Piece::Expr(&*rhs));
            } else if w is Carried {
                assert(s[1] == Piece::Expr(&*rhs));
                lemma_step_is_reached(w, p, Piece::Expr(&*rhs));
            } else {
                lemma_end_of_walk(w, p);
            }
        },
        _ => {
            if !(w is Carried) {
                lemma_end_of_walk(w, p);
            }
        },
    }
}

proof fn lemma_returned<'a>(s: Seq<Stmt>, k: int, x: Expr)
    requires
        0 <= k < s.len(),
        s[k].kind == (StmtKind::Return { value: Some(x) }),
    ensures
        returned::<'a>(s).contains(Piece::Expr(&x)),
    decreases s.len(),
{
    let a = returned::<'a>(s.drop_last());
    let b: Seq<Piece<'a>> = match s.last().kind {
        StmtKind::Return { value } => opt_pieces(value),
        _ => seq![],
    };
    if k < s.len() - 1 {
        assert(s.drop_last()[k] == s[k]);
        lemma_returned(s.drop_last(), k, x);
    } else {
        assert(b[0] == Piece::Expr(&x));
    }
    lemma_part_of_sum(a, b, Piece::Expr(&x));
}

/// The value of a reference, dereference, assertion, propagation, atomic or lazy
/// wrapper, slice, array, record or assignment may hold the values of all its
/// parts, and the value of a call those of its arguments.
pub proof fn law_values_are_carried(e: Expr, x: Expr)
    requires
        ({
            ||| e.kind matches ExprKind::RefOf(a) && *a == x
            ||| e.kind matches ExprKind::Deref(a) && *a == x
            ||| e.kind matches ExprKind::NonNullAssert(a) && *a == x
            ||| e.kind matches ExprKind::Propagate(a) && *a == x
            ||| e.kind matches ExprKind::Atomic(a) && *a == x
            ||| e.kind matches ExprKind::Lazy(a) && *a == x
            ||| e.kind matches ExprKind::Elvis { lhs, rhs } && (*lhs == x || *rhs == x)
            ||| e.kind matches ExprKind::Assign { target, value } && (*target == x || *value == x)
            ||| e.kind matches ExprKind::CompoundAssign { target, value } && (*target == x || *value == x)
            ||| e.kind matches ExprKind::Slice { recv, start, end } && (*recv == x || *start == x || *end == x)
            ||| e.kind matches ExprKind::ArrayLit { elements, fill } && (elements@.contains(x) || fill is Some && (
            fill->0.value == x || fill->0.count == x))
            ||| e.kind matches ExprKind::RecordLit(fields) && exists|k: int|
                0 <= k < fields@.len() && (#[trigger] fields@[k]).value == x
            ||| e.kind matches ExprKind::RecordExtend { base, updates } && (*base == x || exists|k: int|
                0 <= k < updates@.len() && (#[trigger] updates@[k]).value == x)
            ||| e.kind matches ExprKind::Call { args, .. } && args@.contains(x)
            ||| e.kind matches ExprKind::MethodCall { args, .. } && args@.contains(x)
            ||| e.kind matches ExprKind::SafeMethodCall { args, .. } && args@.contains(x)
        }),
    ensures
        reached(Walk::Carried, Piece::Expr(&e)).contains(Piece::Expr(&x)),
{
    let p = Piece::Expr(&e);
    let y = Piece::Expr(&x);
    let s = steps(Walk::Carried, p);
    match e.kind {
        ExprKind::Call { args, .. } | ExprKind::MethodCall { args, .. } | ExprKind::SafeMethodCall { args, .. } => {
            let k = choose|k: int| 0 <= k < args@.len() && args@[k] == x;
            assert(s[k] == y);
        },
        ExprKind::Slice { recv, start, end } => {
            assert(s[0] == Piece::Expr(&*recv) && s[1] == Piece::Expr(&*start) && s[2] == Piece::Expr(&*end));
        },
        ExprKind::ArrayLit { elements, fill } => {
            let f = match fill {
                Some(f) => seq![Piece::Expr(&f.value), Piece::Expr(&f.count)],
                None => seq![],
            };
            if elements@.contains(x) {
                let k = choose|k: int| 0 <= k < elements@.len() && elements@[k] == x;
                assert(expr_pieces(elements@)[k] == y);
            } else {
                assert(f[0] == Piece::Expr(&fill->0.value) && f[1] == Piece::Expr(&fill->0.count));
            }
            lemma_part_of_sum(expr_pieces(elements@), f, y);
        },
        ExprKind::RecordLit(fields) => {
            let k = choose|k: int| 0 <= k < fields@.len() && (#[trigger] fields@[k]).value == x;
            assert(s[k] == y);
        },
        ExprKind::RecordExtend { base, updates } => {
            let f = seq![Piece::Expr(&*base)];
            if *base == x {
                assert(f[0] == y);
            } else {
                let k = choose|k: int| 0 <= k < updates@.len() && (#[trigger] updates@[k]).value == x;
                assert(field_pieces(updates@)[k] == y);
            }
            lemma_part_of_sum(f, field_pieces(updates@), y);
        },
        ExprKind::Elvis { lhs: a, rhs: b }
        | ExprKind::Assign { target: a, value: b }
        | ExprKind::CompoundAssign { target: a, value: b } => {
            assert(s[0] == Piece::Expr(&*a) && s[1] == Piece::Expr(&*b));
        },
        _ => {
            assert(s[0] == y);
        },
    }
    lemma_step_is_reached(Walk::Carried, p, y);
}

/// A place is in tail position where its parent is, and its value is the
/// parent's: at the end of a block, in a branch of an `if`, or in the body of an
/// arm. Everything else below a place in tail position is not in one.
pub proof fn law_tail_position_is_handed_down(e: Expr, k: int)
    ensures
        e.kind matches ExprKind::Block { trailing, .. } ==> trailing is Some ==> reached(
            Walk::SelfCalls,
            Piece::Tail(&e),
        ).contains(Piece::Tail(&*(trailing->0))),
        e.kind matches ExprKind::If { cond, then_branch, else_branch } ==> {
            &&& reached(Walk::SelfCalls, Piece::Tail(&e)).contains(Piece::Expr(&*cond))
            &&& reached(Walk::SelfCalls, Piece::Tail(&e)).contains(Piece::Tail(&*then_branch))
            &&& else_branch is Some ==> reached(Walk::SelfCalls, Piece::Tail(&e)).contains(
                Piece::Tail(&*(else_branch->0)),
            )
        },
        e.kind matches ExprKind::Match { scrutinee, arms } ==> {
            &&& reached(Walk::SelfCalls, Piece::Tail(&e)).contains(Piece::Expr(&*scrutinee))
            &&& 0 <= k < arms@.len() ==> reached(Walk::SelfCalls, Piece::Tail(&e)).contains(Piece::Tail(&arms@[k].body))
        },
        !(e.kind is Block || e.kind is If || e.kind is Match) && 0 <= k < steps(Walk::SelfCalls, Piece::Tail(&e)).len()
            ==> !(steps(Walk::SelfCalls, Piece::Tail(&e))[k] is Tail),
{
    let w = Walk::SelfCalls;
    let p = Piece::Tail(&e);
    let s = steps(w, p);
    match e.kind {
        ExprKind::Block { stmts, trailing } => {
            if trailing is Some {
                let y = Piece::Tail(&*(trailing->0));
                assert(like_opt(p, trailing)[0] == y);
                lemma_part_of_sum(stmt_pieces(stmts@), like_opt(p, trailing), y);
                lemma_step_is_reached(w, p, y);
            }
        },
        ExprKind::If { cond, then_branch, else_branch } => {
            let f = seq![Piece::Expr(&*cond), like(p, *then_branch)];
            assert(s[0] == Piece::Expr(&*cond) && s[1] == Piece::Tail(&*then_branch));
            lemma_step_is_reached(w, p, Piece::Expr(&*cond));
            lemma_step_is_reached(w, p, Piece::Tail(&*then_branch));
            if else_branch is Some {
                let y = Piece::Tail(&*(else_branch->0));
                assert(like_opt(p, else_branch)[0] == y);
                lemma_part_of_sum(f, like_opt(p, else_branch), y);
                lemma_step_is_reached(w, p, y);
            }
        },
        ExprKind::Match { scrutinee, arms } => {
            let f = seq![Piece::Expr(&*scrutinee)];
            assert(s[0] == Piece::Expr(&*scrutinee));
            lemma_step_is_reached(w, p, Piece::Expr(&*scrutinee));
            if 0 <= k < arms@.len() {
                lemma_arm_is_a_piece(p, arms@, k);
                lemma_part_of_sum(f, arm_pieces(p, arms@), Piece::Tail(&arms@[k].body));
                lemma_step_is_reached(w, p, Piece::Tail(&arms@[k].body));
            }
        },
        _ => {
            lemma_no_tail_parts(e);
        },
    }
}

proof fn lemma_no_tail_parts<'a>(e: Expr)
    requires
        !(e.kind is Match),
    ensures
        forall|k: int| 0 <= k < expr_parts::<'a>(e).len() ==> !(#[trigger] expr_parts::<'a>(e)[k] is Tail),
{
    match e.kind {
        ExprKind::StrInterp(parts) => lemma_no_tail_interp(parts@),
        ExprKind::Select(arms) => lemma_no_tail_select(arms@),
        ExprKind::InlineTrait(methods) => lemma_no_tail_method(methods@),
        _ => {},
    }
}

proof fn lemma_no_tail_interp<'a>(s: Seq<InterpolationPart>)
    ensures
        forall|k: int| 0 <= k < interp_pieces::<'a>(s).len() ==> !(#[trigger] interp_pieces::<'a>(s)[k] is Tail),
    decreases s.len(),
{
    if s.len() > 0 {
        lemma_no_tail_interp(s.drop_last());
    }
}

proof fn lemma_no_tail_select<'a>(s: Seq<SelectArm>)
    ensures
        forall|k: int| 0 <= k < select_pieces::<'a>(s).len() ==> !(#[trigger] select_pieces::<'a>(s)[k] is Tail),
    decreases s.len(),
{
    if s.len() > 0 {
        lemma_no_tail_select(s.drop_last());
    }
}

proof fn lemma_no_tail_method<'a>(s: Seq<Method>)
    ensures
        forall|k: int| 0 <= k < method_pieces::<'a>(s).len() ==> !(#[trigger] method_pieces::<'a>(s)[k] is Tail),
    decreases s.len(),
{
    if s.len() > 0 {
        lemma_no_tail_method(s.drop_last());
    }
}

/// The walk over what can be reached goes to the statements of a block up to the
/// first that returns, breaks, continues or throws, and to the block's last
/// expression where there is none such.
pub proof fn law_code_behind_a_jump_is_not_reached(e: Expr, n: int)
    requires
        e.kind is Block,
        0 <= n <= e.kind->stmts@.len(),
        forall|j: int| #![trigger e.kind->stmts@[j]]
            0 <= j < n ==> {
                let k = e.kind->stmts@[j].kind;
                !(k is Return) && !(k is Break) && !(k is Continue) && !(k is Throw)
            },
        n < e.kind->stmts@.len() ==> {
            let k = e.kind->stmts@[n].kind;
            k is Return || k is Break || k is Continue || k is Throw
        },
    ensures
        forall|j: int| #![trigger e.kind->stmts@[j]]
            0 <= j < n ==> reached(Walk::Reachable, Piece::Expr(&e)).contains(Piece::Stmt(&e.kind->stmts@[j])),
        n < e.kind->stmts@.len() ==> steps(Walk::Reachable, Piece::Expr(&e)).len() == n,
        n == e.kind->stmts@.len() && e.kind->trailing is Some ==> reached(Walk::Reachable, Piece::Expr(&e)).contains(
            Piece::Expr(&*(e.kind->trailing->0)),
        ),
{
    if let ExprKind::Block { stmts, trailing } = e.kind {
        let w = Walk::Reachable;
        let p = Piece::Expr(&e);
        lemma_live_prefix_is(stmts@, n);
        assert(live_prefix(stmts@) == n);
        assert forall|j: int| #![trigger e.kind->stmts@[j]] 0 <= j < n implies reached(w, p).contains(
            Piece::Stmt(&e.kind->stmts@[j]),
        ) by {
            assert(steps(w, p)[j] == Piece::Stmt(&stmts@[j]));
            lemma_step_is_reached(w, p, Piece::Stmt(&stmts@[j]));
        }
        if n == stmts@.len() && trailing is Some {
            let y = Piece::Expr(&*(trailing->0));
            assert(opt_box_pieces(trailing)[0] == y);
            lemma_part_of_sum(stmt_pieces(stmts@), opt_box_pieces(trailing), y);
            lemma_step_is_reached(w, p, y);
        }
    }
}

proof fn lemma_live_prefix_is(s: Seq<Stmt>, n: int)
    requires
        0 <= n <= s.len(),
        forall|j: int| #![trigger s[j]] 0 <= j < n ==> !is_terminator(s[j]),
        n < s.len() ==> is_terminator(s[n]),
    ensures
        live_prefix(s) == n,
    decreases s.len(),
{
    if s.len() > 0 {
        let r = s.drop_last();
        if n < s.len() - 1 {
            lemma_live_prefix_is(r, n);
        } else {
            lemma_live_prefix_is(r, s.len() - 1);
            if n == s.len() {
                assert(!is_terminator(s[n - 1]));
            }
        }
    }
}

/// The walk over what an expression does goes from a call to its arguments.
pub proof fn law_arguments_take_part(e: Expr, k: int)
    requires
        e.kind is Call,
        0 <= k < e.kind->Call_args@.len(),
    ensures
        reached(Walk::Effects, Piece::Expr(&e)).contains(Piece::Expr(&e.kind->Call_args@[k])),
{
    let p = Piece::Expr(&e);
    assert(steps(Walk::Effects, p)[k] == Piece::Expr(&e.kind->Call_args@[k]));
    lemma_step_is_reached(Walk::Effects, p, Piece::Expr(&e.kind->Call_args@[k]));
}

} // verus!
