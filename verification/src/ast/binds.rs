//! Where a tree gives a name to a value, and where it changes what a name
//! stands for.

use super::tree::{Expr, ExprKind, MatchArm, Pattern, Stmt, StmtKind};
use super::walk::Piece;
use vstd::prelude::*;

verus! {

/// The variables that a pattern binds.
pub open spec fn pattern_vars<'a>(p: Pattern) -> Seq<&'a String>
    decreases p,
{
    match p {
        Pattern::Variable { name } => seq![&name],
        Pattern::Constructor { patterns, .. } => patterns_vars(patterns@),
        Pattern::Record { fields } => patterns_vars(fields@),
        Pattern::OrPattern { left, right } => pattern_vars(*left) + pattern_vars(*right),
        Pattern::Guard { pattern, .. } => pattern_vars(*pattern),
        Pattern::Wildcard | Pattern::Literal => seq![],
    }
}

pub open spec fn patterns_vars<'a>(s: Seq<Pattern>) -> Seq<&'a String>
    decreases s,
{
    if s.len() == 0 {
        seq![]
    } else {
        patterns_vars(s.drop_last()) + pattern_vars(s.last())
    }
}

/// The variables that the arms of a match bind.
pub open spec fn arm_vars<'a>(s: Seq<MatchArm>) -> Seq<&'a String>
    decreases s.len(),
{
    if s.len() == 0 {
        seq![]
    } else {
        arm_vars(s.drop_last()) + pattern_vars(s.last().pattern)
    }
}

fn push_pattern_vars<'a>(out: &mut Vec<&'a String>, p: &'a Pattern)
    ensures
        final(out)@ == old(out)@ + pattern_vars(*p),
    decreases p,
{
    match p {
        Pattern::Variable { name } => {
            out.push(name);
        },
        Pattern::Constructor { patterns: s, .. } | Pattern::Record { fields: s } => {
            let mut i: usize = 0;
            assert(out@ =~= old(out)@ + patterns_vars(s@.take(0)));
            while i < s.len()
                invariant
                    i <= s@.len(),
                    decreases_to!(*p => s@),
                    out@ == old(out)@ + patterns_vars(s@.take(i as int)),
                decreases s@.len() - i,
            {
                assert(s@.take(i + 1).drop_last() =~= s@.take(i as int));
                assert(decreases_to!(s@ => s@[i as int]));
                push_pattern_vars(out, &s[i]);
                i = i + 1;
                assert(out@ =~= old(out)@ + patterns_vars(s@.take(i as int)));
            }
            assert(s@.take(i as int) =~= s@);
        },
        Pattern::OrPattern { left, right } => {
            push_pattern_vars(out, left);
            push_pattern_vars(out, right);
        },
        Pattern::Guard { pattern, .. } => {
            push_pattern_vars(out, pattern);
        },
        Pattern::Wildcard | Pattern::Literal => {},
    }
    assert(out@ =~= old(out)@ + pattern_vars(*p));
}

/// The variables that the arms of a match bind.
pub fn list_arm_vars<'a>(s: &'a Vec<MatchArm>) -> (out: Vec<&'a String>)
    ensures
        out@ == arm_vars(s@),
{
    let mut out: Vec<&'a String> = Vec::new();
    let mut i: usize = 0;
    assert(out@ =~= arm_vars(s@.take(0)));
    while i < s.len()
        invariant
            i <= s@.len(),
            out@ == arm_vars(s@.take(i as int)),
        decreases s@.len() - i,
    {
        assert(s@.take(i + 1).drop_last() =~= s@.take(i as int));
        push_pattern_vars(&mut out, &s[i].pattern);
        i = i + 1;
    }
    assert(s@.take(i as int) =~= s@);
    out
}

/// The variable that holds, directly or in a part of it, what `e` stands for.
pub open spec fn root_var<'a>(e: Expr) -> Option<&'a String>
    decreases e,
{
    match e.kind {
        ExprKind::Ident(name) => Some(&name),
        ExprKind::Index { recv: x, .. }
        | ExprKind::Slice { recv: x, .. }
        | ExprKind::FieldAccess { recv: x }
        | ExprKind::SafeAccess { recv: x }
        | ExprKind::NonNullAssert(x)
        | ExprKind::RefOf(x)
        | ExprKind::Deref(x) => root_var(*x),
        _ => None,
    }
}

/// The variable that holds, directly or in a part of it, what `e` stands for.
pub fn find_root_var<'a>(e: &'a Expr) -> (r: Option<&'a String>)
    ensures
        r == root_var(*e),
    decreases e,
{
    match &e.kind {
        ExprKind::Ident(name) => Some(name),
        ExprKind::Index { recv: x, .. }
        | ExprKind::Slice { recv: x, .. }
        | ExprKind::FieldAccess { recv: x }
        | ExprKind::SafeAccess { recv: x }
        | ExprKind::NonNullAssert(x)
        | ExprKind::RefOf(x)
        | ExprKind::Deref(x) => find_root_var(x),
        _ => None,
    }
}

/// A variable and a value that it takes, whole or in part.
#[derive(Clone, Copy)]
pub struct Binding<'a> {
    pub name: &'a String,
    pub value: &'a Expr,
}

/// The same value for each of the variables.
pub open spec fn bind_all<'a>(names: Seq<&'a String>, value: Expr) -> Seq<Binding<'a>> {
    Seq::new(names.len(), |i: int| Binding { name: names[i], value: &value })
}

/// The value for the variable that a store goes to, where there is one.
pub open spec fn bind_root<'a>(target: Expr, value: Expr) -> Seq<Binding<'a>> {
    match root_var::<'a>(target) {
        Some(name) => seq![Binding { name, value: &value }],
        None => seq![],
    }
}

pub open spec fn stmt_bindings<'a>(s: Stmt) -> Seq<Binding<'a>> {
    match s.kind {
        StmtKind::ValDecl { name, value } | StmtKind::VarDecl { name, value } => seq![
            Binding { name: &name, value: &value },
        ],
        StmtKind::For { name, iterable, .. } => seq![Binding { name: &name, value: &iterable }],
        StmtKind::Assignment { target, value }
        | StmtKind::CompoundAssignment { target, value }
        | StmtKind::FieldAssignment { object: target, value } => bind_root(target, value),
        _ => seq![],
    }
}

/// What a place gives to variables: declarations, loops over values, matches
/// and assignments do, those to a part of a variable among them.
pub open spec fn bindings_at<'a>(p: Piece<'a>) -> Seq<Binding<'a>> {
    match p {
        Piece::Expr(e) | Piece::Tail(e) => match e.kind {
            ExprKind::Assign { target, value } | ExprKind::CompoundAssign { target, value } => bind_root(
                *target,
                *value,
            ),
            ExprKind::Match { scrutinee, arms } => bind_all(arm_vars(arms@), *scrutinee),
            _ => seq![],
        },
        Piece::Stmt(s) => stmt_bindings(*s),
    }
}

/// What the first `n` places give to variables.
pub open spec fn bindings_upto<'a>(s: Seq<Piece<'a>>, n: int) -> Seq<Binding<'a>>
    decreases n,
{
    if n <= 0 {
        seq![]
    } else {
        bindings_upto(s, n - 1) + bindings_at(s[n - 1])
    }
}

fn push_root<'a>(out: &mut Vec<Binding<'a>>, target: &'a Expr, value: &'a Expr)
    ensures
        final(out)@ == old(out)@ + bind_root(*target, *value),
{
    if let Some(name) = find_root_var(target) {
        out.push(Binding { name, value });
    }
    assert(out@ =~= old(out)@ + bind_root(*target, *value));
}

fn push_bindings_at<'a>(out: &mut Vec<Binding<'a>>, p: Piece<'a>)
    ensures
        final(out)@ == old(out)@ + bindings_at(p),
{
    match p {
        Piece::Expr(e) | Piece::Tail(e) => match &e.kind {
            ExprKind::Assign { target, value } | ExprKind::CompoundAssign { target, value } => {
                push_root(out, target, value);
            },
            ExprKind::Match { scrutinee, arms } => {
                let names = list_arm_vars(arms);
                let mut i: usize = 0;
                while i < names.len()
                    invariant
                        i <= names@.len(),
                        out@ =~= old(out)@ + bind_all(names@.take(i as int), **scrutinee),
                    decreases names@.len() - i,
                {
                    out.push(Binding { name: names[i], value: scrutinee });
                    i = i + 1;
                }
                assert(names@.take(i as int) =~= names@);
            },
            _ => {},
        },
        Piece::Stmt(s) => match &s.kind {
            StmtKind::ValDecl { name, value } | StmtKind::VarDecl { name, value } => {
                out.push(Binding { name, value });
            },
            StmtKind::For { name, iterable, .. } => {
                out.push(Binding { name, value: iterable });
            },
            StmtKind::Assignment { target, value }
            | StmtKind::CompoundAssignment { target, value }
            | StmtKind::FieldAssignment { object: target, value } => {
                push_root(out, target, value);
            },
            _ => {},
        },
    }
    assert(out@ =~= old(out)@ + bindings_at(p));
}

/// What the places give to variables.
pub fn list_bindings<'a>(places: &Vec<Piece<'a>>) -> (out: Vec<Binding<'a>>)
    ensures
        out@ == bindings_upto(places@, places@.len() as int),
{
    let mut out: Vec<Binding<'a>> = Vec::new();
    let mut i: usize = 0;
    while i < places.len()
        invariant
            i <= places@.len(),
            out@ == bindings_upto(places@, i as int),
        decreases places@.len() - i,
    {
        push_bindings_at(&mut out, places[i]);
        i = i + 1;
    }
    out
}

// ---- laws ------------------------------------------------------------------

/// A store goes to the variable at the root of its target: through indexing,
/// slicing, fields, assertions and references. Nothing else has a root.
pub proof fn law_stores_go_to_the_root<'a>(e: Expr)
    ensures
        e.kind matches ExprKind::Ident(name) ==> root_var::<'a>(e) == Some(&name),
        e.kind matches ExprKind::Index { recv, .. } ==> root_var::<'a>(e) == root_var::<'a>(*recv),
        e.kind matches ExprKind::Slice { recv, .. } ==> root_var::<'a>(e) == root_var::<'a>(*recv),
        e.kind matches ExprKind::FieldAccess { recv } ==> root_var::<'a>(e) == root_var::<'a>(*recv),
        e.kind matches ExprKind::SafeAccess { recv } ==> root_var::<'a>(e) == root_var::<'a>(*recv),
        e.kind matches ExprKind::NonNullAssert(x) ==> root_var::<'a>(e) == root_var::<'a>(*x),
        e.kind matches ExprKind::RefOf(x) ==> root_var::<'a>(e) == root_var::<'a>(*x),
        e.kind matches ExprKind::Deref(x) ==> root_var::<'a>(e) == root_var::<'a>(*x),
        e.kind is Call || e.kind is MethodCall || e.kind is Binary || e.kind is Lambda || e.kind is IntLit ==> root_var::<'a>(e) is None,
{
}

/// Declarations, loops over values and assignments give their variable the
/// value; an assignment to a part gives it to the variable at the root.
pub proof fn law_places_bind_variables<'a>(s: Stmt, e: Expr)
    ensures
        s.kind matches StmtKind::ValDecl { name, value } ==> bindings_at(Piece::Stmt(&s)).contains(
            Binding { name: &name, value: &value },
        ),
        s.kind matches StmtKind::VarDecl { name, value } ==> bindings_at(Piece::Stmt(&s)).contains(
            Binding { name: &name, value: &value },
        ),
        s.kind matches StmtKind::For { name, iterable, .. } ==> bindings_at(Piece::Stmt(&s)).contains(
            Binding { name: &name, value: &iterable },
        ),
        s.kind matches StmtKind::Assignment { target, value } ==> (root_var(target) matches Some(name) ==> bindings_at(
            Piece::Stmt(&s),
        ).contains(Binding { name, value: &value })),
        s.kind matches StmtKind::CompoundAssignment { target, value } ==> (root_var(target) matches Some(name)
            ==> bindings_at(Piece::Stmt(&s)).contains(Binding { name, value: &value })),
        s.kind matches StmtKind::FieldAssignment { object, value } ==> (root_var(object) matches Some(name)
            ==> bindings_at(Piece::Stmt(&s)).contains(Binding { name, value: &value })),
        e.kind matches ExprKind::Assign { target, value } ==> (root_var(*target) matches Some(name) ==> bindings_at(
            Piece::Expr(&e),
        ).contains(Binding { name, value: &*value })),
        e.kind matches ExprKind::CompoundAssign { target, value } ==> (root_var(*target) matches Some(name)
            ==> bindings_at(Piece::Expr(&e)).contains(Binding { name, value: &*value })),
{
    let p = Piece::Stmt(&s);
    let q = Piece::Expr(&e);
    if bindings_at(p).len() > 0 {
        assert(bindings_at(p).contains(bindings_at(p)[0]));
    }
    if bindings_at(q).len() > 0 {
        assert(bindings_at(q).contains(bindings_at(q)[0]));
    }
}

/// A variable in the pattern of an arm takes the value that the match looks at.
pub proof fn law_arms_bind_variables<'a>(e: Expr, k: int)
    requires
        e.kind is Match,
        0 <= k < e.kind->arms@.len(),
        e.kind->arms@[k].pattern is Variable,
    ensures
        bindings_at(Piece::Expr(&e)).contains(
            Binding { name: &e.kind->arms@[k].pattern->Variable_name, value: &*(e.kind->scrutinee) },
        ),
{
    let arms = e.kind->arms@;
    let names = arm_vars(arms);
    lemma_arm_var(arms, k);
    let i = choose|i: int| 0 <= i < names.len() && names[i] == &arms[k].pattern->Variable_name;
    assert(bind_all(names, *(e.kind->scrutinee))[i] == (Binding {
        name: &arms[k].pattern->Variable_name,
        value: &*(e.kind->scrutinee),
    }));
}

proof fn lemma_arm_var<'a>(s: Seq<MatchArm>, k: int)
    requires
        0 <= k < s.len(),
        s[k].pattern is Variable,
    ensures
        arm_vars::<'a>(s).contains(&s[k].pattern->Variable_name),
    decreases s.len(),
{
    let a = arm_vars::<'a>(s.drop_last());
    let b = pattern_vars::<'a>(s.last().pattern);
    let x = &s[k].pattern->Variable_name;
    if k < s.len() - 1 {
        assert(s.drop_last()[k] == s[k]);
        lemma_arm_var(s.drop_last(), k);
        let i = choose|i: int| 0 <= i < a.len() && a[i] == x;
        assert((a + b)[i] == x);
    } else {
        assert(b[0] == x);
        assert((a + b)[a.len() as int] == x);
    }
}

/// The places of a list bind what each of them binds, and nothing else.
pub proof fn law_lists_bind_what_places_bind<'a>(s: Seq<Piece<'a>>, n: int, b: Binding<'a>)
    requires
        0 <= n <= s.len(),
    ensures
        bindings_upto(s, n).contains(b) <==> exists|i: int| 0 <= i < n && bindings_at(#[trigger] s[i]).contains(b),
    decreases n,
{
    if n > 0 {
        law_lists_bind_what_places_bind(s, n - 1, b);
        let x = bindings_upto(s, n - 1);
        let y = bindings_at(s[n - 1]);
        if x.contains(b) {
            let k = choose|k: int| 0 <= k < x.len() && x[k] == b;
            assert((x + y)[k] == b);
        }
        if y.contains(b) {
            let k = choose|k: int| 0 <= k < y.len() && y[k] == b;
            assert((x + y)[x.len() + k] == b);
        }
        if (x + y).contains(b) {
            let k = choose|k: int| 0 <= k < (x + y).len() && (x + y)[k] == b;
            if k < x.len() {
                assert(x[k] == b);
            } else {
                assert(y[k - x.len()] == b);
            }
        }
    }
}

} // verus!
