//! Which lambdas outlive the run of the body that makes them: those that the
//! body returns, and those that capture a variable of a loop body.

use super::tables::{EscapeInfo, EscapeKind, EscapeTable};
use crate::ast::sema::{has_name, holds_name};
use crate::ast::tree::{Decl, Expr, ExprId, ExprKind, Module, Param, Stmt, StmtKind};
use crate::ast::walk::{
    ident_of, law_reached_is_inside, lemma_parts_within, parts, piece_size, push_parts, reach, reached, within, Piece,
    Walk,
};
use crate::fx::NameMap;
use vstd::prelude::*;

verus! {

// ---- names -----------------------------------------------------------------

/// The name that stands at a place.
pub open spec fn name_at(p: Piece) -> Option<Seq<char>> {
    match p {
        Piece::Expr(e) | Piece::Tail(e) => match e.kind {
            ExprKind::Ident(name) => Some(name@),
            _ => None,
        },
        Piece::Stmt(_) => None,
    }
}

/// The list with the names at the first `n` places behind it that it does not
/// hold yet, each where it occurs first.
pub open spec fn names_added(start: Seq<Seq<char>>, s: Seq<Piece>, n: int) -> Seq<Seq<char>>
    decreases n,
{
    if n <= 0 {
        start
    } else {
        let before = names_added(start, s, n - 1);
        match name_at(s[n - 1]) {
            Some(name) => if before.contains(name) {
                before
            } else {
                before.push(name)
            },
            None => before,
        }
    }
}

/// The list with the names in the expression behind it that it does not hold
/// yet.
pub open spec fn with_free_names(start: Seq<Seq<char>>, e: Expr) -> Seq<Seq<char>> {
    let s = reached(Walk::Full, Piece::Expr(&e));
    names_added(start, s, s.len() as int)
}

/// The names in an expression, each where it occurs first.
pub open spec fn free_names(e: Expr) -> Seq<Seq<char>> {
    with_free_names(seq![], e)
}

/// Whether the name occurs in the expression.
pub open spec fn occurs_in(e: Expr, name: Seq<char>) -> bool {
    let s = reached(Walk::Full, Piece::Expr(&e));
    exists|i: int| 0 <= i < s.len() && name_at(#[trigger] s[i]) == Some(name)
}

proof fn lemma_names_added(start: Seq<Seq<char>>, s: Seq<Piece>, n: int)
    requires
        0 <= n <= s.len(),
    ensures
        start.is_prefix_of(names_added(start, s, n)),
        start.no_duplicates() ==> names_added(start, s, n).no_duplicates(),
        forall|name: Seq<char>| #[trigger]
            names_added(start, s, n).contains(name) <==> start.contains(name) || exists|i: int|
                0 <= i < n && name_at(#[trigger] s[i]) == Some(name),
    decreases n,
{
    if n > 0 {
        lemma_names_added(start, s, n - 1);
        let before = names_added(start, s, n - 1);
        let after = names_added(start, s, n);
        assert forall|name: Seq<char>| #[trigger] after.contains(name) <==> start.contains(name) || exists|i: int|
            0 <= i < n && name_at(#[trigger] s[i]) == Some(name) by {
            assert(before.contains(name) <==> start.contains(name) || exists|i: int|
                0 <= i < n - 1 && name_at(#[trigger] s[i]) == Some(name));
            if before.contains(name) {
                let k = choose|k: int| 0 <= k < before.len() && before[k] == name;
                assert(after[k] == name);
            }
            if name_at(s[n - 1]) == Some(name) && !before.contains(name) {
                assert(after[before.len() as int] == name);
            }
            if after.contains(name) && !before.contains(name) {
                let k = choose|k: int| 0 <= k < after.len() && after[k] == name;
                assert(k == before.len());
            }
        }
    }
}

proof fn lemma_nothing_added(start: Seq<Seq<char>>, s: Seq<Piece>, n: int)
    requires
        0 <= n <= s.len(),
        forall|i: int| 0 <= i < n ==> (name_at(#[trigger] s[i]) matches Some(name) ==> start.contains(name)),
    ensures
        names_added(start, s, n) == start,
    decreases n,
{
    if n > 0 {
        lemma_nothing_added(start, s, n - 1);
        assert(name_at(s[n - 1]) matches Some(name) ==> start.contains(name));
    }
}

/// Adding the names of an expression to a list keeps the list in front and
/// makes no name stand twice; then the list holds exactly what it held and
/// what occurs in the expression, and doing it again adds nothing.
pub proof fn law_free_names_are_listed_once(start: Seq<Seq<char>>, e: Expr, name: Seq<char>)
    ensures
        start.is_prefix_of(with_free_names(start, e)),
        start.no_duplicates() ==> with_free_names(start, e).no_duplicates(),
        with_free_names(start, e).contains(name) <==> start.contains(name) || occurs_in(e, name),
        with_free_names(with_free_names(start, e), e) == with_free_names(start, e),
        free_names(e).no_duplicates(),
        free_names(e).contains(name) <==> occurs_in(e, name),
{
    let s = reached(Walk::Full, Piece::Expr(&e));
    let n = s.len() as int;
    lemma_names_added(start, s, n);
    lemma_names_added(seq![], s, n);
    let once = with_free_names(start, e);
    assert forall|i: int| 0 <= i < n implies (name_at(#[trigger] s[i]) matches Some(x) ==> once.contains(x)) by {
        if let Some(x) = name_at(s[i]) {
            assert(names_added(start, s, n).contains(x));
        }
    }
    lemma_nothing_added(once, s, n);
}

/// A name that an expression adds to a list comes behind those that occur
/// before it.
pub proof fn law_free_names_keep_their_order(start: Seq<Seq<char>>, e: Expr, k: int)
    requires
        0 <= k <= reached(Walk::Full, Piece::Expr(&e)).len(),
    ensures
        names_added(start, reached(Walk::Full, Piece::Expr(&e)), k).is_prefix_of(with_free_names(start, e)),
{
    let s = reached(Walk::Full, Piece::Expr(&e));
    lemma_names_grow(start, s, k, s.len() as int);
}

proof fn lemma_names_grow(start: Seq<Seq<char>>, s: Seq<Piece>, k: int, n: int)
    requires
        0 <= k <= n <= s.len(),
    ensures
        names_added(start, s, k).is_prefix_of(names_added(start, s, n)),
    decreases n,
{
    if k < n {
        lemma_names_grow(start, s, k, n - 1);
    }
}

pub open spec fn views(s: Seq<String>) -> Seq<Seq<char>> {
    s.map_values(|n: String| n@)
}

proof fn lemma_views_contain(s: Seq<String>, name: Seq<char>)
    ensures
        views(s).contains(name) == has_name(s, name),
{
    if views(s).contains(name) {
        let i = choose|i: int| 0 <= i < views(s).len() && views(s)[i] == name;
        assert(s[i]@ == name);
    }
    if has_name(s, name) {
        let i = choose|i: int| 0 <= i < s.len() && (#[trigger] s[i])@ == name;
        assert(views(s)[i] == name);
    }
}

/// Adds the names in an expression that the list does not hold yet, in the
/// order of their first occurrence.
pub fn collect_free_idents_expr(e: &Expr, names: &mut Vec<String>)
    ensures
        views(final(names)@) == with_free_names(views(old(names)@), *e),
        old(names)@.is_prefix_of(final(names)@),
{
    let places = reach(Walk::Full, Piece::Expr(e));
    let ghost first = names@;
    let mut i: usize = 0;
    while i < places.len()
        invariant
            i <= places@.len(),
            first.is_prefix_of(names@),
            views(names@) == names_added(views(first), places@, i as int),
        decreases places@.len() - i,
    {
        if let Piece::Expr(x) | Piece::Tail(x) = places[i] {
            if let Some(name) = ident_of(x) {
                proof {
                    lemma_views_contain(names@, name@);
                }
                if !holds_name(names, name) {
                    let ghost before = names@;
                    names.push(name.clone());
                    assert(views(names@) =~= views(before).push(name@));
                }
            }
        }
        i = i + 1;
    }
}

/// The names in an expression, each once, in the order of their first
/// occurrence.
pub fn collect_free_idents(e: &Expr) -> (names: Vec<String>)
    ensures
        views(names@) == free_names(*e),
        views(names@).no_duplicates(),
        forall|name: Seq<char>| #[trigger] views(names@).contains(name) <==> occurs_in(*e, name),
{
    let mut names: Vec<String> = Vec::new();
    assert(views(names@) =~= seq![]);
    collect_free_idents_expr(e, &mut names);
    proof {
        law_free_names_are_listed_once(seq![], *e, seq![]);
        assert forall|name: Seq<char>| #[trigger] views(names@).contains(name) <==> occurs_in(*e, name) by {
            law_free_names_are_listed_once(seq![], *e, name);
        }
    }
    names
}

// ---- lambdas in tail positions ---------------------------------------------

/// The variable that a statement binds to a lambda, with the lambda.
pub open spec fn lambda_binding(p: Piece) -> Option<(Seq<char>, u32)> {
    match p {
        Piece::Stmt(s) => match s.kind {
            StmtKind::ValDecl { name, value } | StmtKind::VarDecl { name, value } => if value.kind is Lambda {
                Some((name@, value.id.0))
            } else {
                None
            },
            _ => None,
        },
        _ => None,
    }
}

/// The lambdas that the first `n` places bind to variables; where two bind
/// one variable, the later one.
pub open spec fn bound_upto(s: Seq<Piece>, n: int) -> Map<Seq<char>, u32>
    decreases n,
{
    if n <= 0 {
        Map::empty()
    } else {
        match lambda_binding(s[n - 1]) {
            Some(b) => bound_upto(s, n - 1).insert(b.0, b.1),
            None => bound_upto(s, n - 1),
        }
    }
}

/// The lambdas that variables of the body hold.
pub open spec fn lambda_vars(body: Expr) -> Map<Seq<char>, u32> {
    let s = reached(Walk::Vars, Piece::Expr(&body));
    bound_upto(s, s.len() as int)
}

/// The lambda that a place stands for.
pub open spec fn lambda_at(vars: Map<Seq<char>, u32>, p: Piece) -> Option<u32> {
    match p {
        Piece::Expr(e) | Piece::Tail(e) => match e.kind {
            ExprKind::Lambda { .. } => Some(e.id.0),
            ExprKind::Ident(name) => if vars.contains_key(name@) {
                Some(vars[name@])
            } else {
                None
            },
            _ => None,
        },
        Piece::Stmt(_) => None,
    }
}

pub open spec fn lambdas_upto(vars: Map<Seq<char>, u32>, s: Seq<Piece>, n: int) -> Seq<u32>
    decreases n,
{
    if n <= 0 {
        seq![]
    } else {
        match lambda_at(vars, s[n - 1]) {
            Some(id) => lambdas_upto(vars, s, n - 1).push(id),
            None => lambdas_upto(vars, s, n - 1),
        }
    }
}

/// The lambdas that a body returns, by themselves or by the name of a variable
/// that holds them.
pub open spec fn returned_lambdas(body: Expr) -> Seq<u32> {
    let s = reached(Walk::TailLambdas, Piece::Expr(&body));
    lambdas_upto(lambda_vars(body), s, s.len() as int)
}

fn collect_lambda_vars(body: &Expr) -> (vars: NameMap)
    ensures
        vars@ == lambda_vars(*body),
{
    let places = reach(Walk::Vars, Piece::Expr(body));
    let mut vars = NameMap::new();
    let mut i: usize = 0;
    assert(vars@ =~= Map::<Seq<char>, u32>::empty());
    while i < places.len()
        invariant
            i <= places@.len(),
            vars@ == bound_upto(places@, i as int),
        decreases places@.len() - i,
    {
        if let Piece::Stmt(s) = places[i] {
            match &s.kind {
                StmtKind::ValDecl { name, value } | StmtKind::VarDecl { name, value } => {
                    if matches!(value.kind, ExprKind::Lambda { .. }) {
                        vars.insert(name.clone(), value.id.0);
                    }
                },
                _ => {},
            }
        }
        i = i + 1;
    }
    vars
}

/// The lambdas that a body returns.
pub fn find_escaping_lambdas(body: &Expr) -> (r: Vec<ExprId>)
    ensures
        r@.map_values(|e: ExprId| e.0) == returned_lambdas(*body),
{
    let vars = collect_lambda_vars(body);
    let places = reach(Walk::TailLambdas, Piece::Expr(body));
    let mut r: Vec<ExprId> = Vec::new();
    let mut i: usize = 0;
    let ghost raw = |e: ExprId| e.0;
    assert(r@.map_values(raw) =~= seq![]);
    while i < places.len()
        invariant
            i <= places@.len(),
            raw == (|e: ExprId| e.0),
            r@.map_values(raw) == lambdas_upto(vars@, places@, i as int),
        decreases places@.len() - i,
    {
        let ghost before = r@;
        if let Piece::Expr(e) | Piece::Tail(e) = places[i] {
            match &e.kind {
                ExprKind::Lambda { .. } => {
                    r.push(e.id);
                    assert(r@.map_values(raw) =~= before.map_values(raw).push(e.id.0));
                },
                ExprKind::Ident(name) => {
                    if let Some(id) = vars.get(name.as_str()) {
                        r.push(ExprId(id));
                        assert(r@.map_values(raw) =~= before.map_values(raw).push(id));
                    }
                },
                _ => {},
            }
        }
        i = i + 1;
    }
    r
}

// ---- lambdas that capture a variable of a loop body ------------------------

/// The variable that a statement declares.
pub open spec fn declares(p: Piece, name: Seq<char>) -> bool {
    match p {
        Piece::Stmt(s) => match s.kind {
            StmtKind::ValDecl { name: n, .. } | StmtKind::VarDecl { name: n, .. } => n@ == name,
            _ => false,
        },
        _ => false,
    }
}

/// The variables that a loop body declares, those of lambdas and local
/// functions in it left aside.
pub open spec fn body_vars(body: Expr) -> Set<Seq<char>> {
    let s = reached(Walk::Inner, Piece::Expr(&body));
    Set::new(|n: Seq<char>| exists|i: int| 0 <= i < s.len() && declares(#[trigger] s[i], n))
}

/// The names of a list.
pub open spec fn name_set(s: Seq<String>) -> Set<Seq<char>> {
    Set::new(|n: Seq<char>| has_name(s, n))
}

pub open spec fn is_param(params: Seq<Param>, name: Seq<char>) -> bool {
    exists|i: int| 0 <= i < params.len() && (#[trigger] params[i]).name@ == name
}

/// Whether a lambda of those parameters and that body uses one of the
/// variables.
pub open spec fn captures(params: Seq<Param>, body: Expr, vars: Set<Seq<char>>) -> bool {
    exists|name: Seq<char>|
        #[trigger] free_names(body).contains(name) && !is_param(params, name) && vars.contains(name)
}

/// A place, with the variables of the loop bodies around it.
pub struct Scoped<'a> {
    pub piece: Piece<'a>,
    pub vars: Set<Seq<char>>,
}

pub open spec fn scoped_all<'a>(s: Seq<Piece<'a>>, vars: Set<Seq<char>>) -> Seq<Scoped<'a>> {
    Seq::new(s.len(), |i: int| Scoped { piece: s[i], vars })
}

/// The places below a place, each with the variables of the loop bodies around
/// it. A local function starts without any.
pub open spec fn scoped_steps<'a>(p: Piece<'a>, vars: Set<Seq<char>>) -> Seq<Scoped<'a>> {
    match p {
        Piece::Expr(e) | Piece::Tail(e) => match e.kind {
            ExprKind::InlineTrait(_) => seq![],
            _ => scoped_all(parts(p), vars),
        },
        Piece::Stmt(s) => match s.kind {
            StmtKind::For { iterable: x, body, .. } | StmtKind::While { condition: x, body } => seq![
                Scoped { piece: Piece::Expr(&x), vars },
                Scoped { piece: Piece::Expr(&body), vars: vars.union(body_vars(body)) },
            ],
            StmtKind::Loop { body } => seq![
                Scoped { piece: Piece::Expr(&body), vars: vars.union(body_vars(body)) },
            ],
            StmtKind::LocalDecl { .. } => scoped_all(parts(p), Set::empty()),
            _ => scoped_all(parts(p), vars),
        },
    }
}

/// The lambda at a place, where it captures one of the variables.
pub open spec fn capturing_at(p: Piece, vars: Set<Seq<char>>) -> Seq<u32> {
    match p {
        Piece::Expr(e) | Piece::Tail(e) => match e.kind {
            ExprKind::Lambda { params, body } => if captures(params@, *body, vars) {
                seq![e.id.0]
            } else {
                seq![]
            },
            _ => seq![],
        },
        Piece::Stmt(_) => seq![],
    }
}

proof fn lemma_scoped_step_is_smaller<'a>(p: Piece<'a>, vars: Set<Seq<char>>, i: int)
    requires
        0 <= i < scoped_steps(p, vars).len(),
    ensures
        piece_size(scoped_steps(p, vars)[i].piece) < piece_size(p),
{
    lemma_parts_within(p);
    let n = (piece_size(p) - 1) as nat;
    if scoped_steps(p, vars).len() == parts(p).len() {
        assert(scoped_steps(p, vars)[i].piece == parts(p)[i]);
        assert(piece_size(parts(p)[i]) <= n);
    }
}

/// The lambdas at and below a place that capture a variable of a loop body.
pub open spec fn capturing<'a>(p: Piece<'a>, vars: Set<Seq<char>>) -> Seq<u32>
    decreases piece_size(p), scoped_steps(p, vars).len() + 1,
{
    capturing_at(p, vars) + capturing_below(p, vars, scoped_steps(p, vars).len())
}

pub open spec fn capturing_below<'a>(p: Piece<'a>, vars: Set<Seq<char>>, k: nat) -> Seq<u32>
    decreases piece_size(p), k,
    via capturing_below_decreases
{
    if k == 0 || k > scoped_steps(p, vars).len() {
        seq![]
    } else {
        let s = scoped_steps(p, vars)[k - 1];
        capturing_below(p, vars, (k - 1) as nat) + capturing(s.piece, s.vars)
    }
}

#[via_fn]
proof fn capturing_below_decreases<'a>(p: Piece<'a>, vars: Set<Seq<char>>, k: nat) {
    if k == 0 || k > scoped_steps(p, vars).len() {
    } else {
        lemma_scoped_step_is_smaller(p, vars, k - 1);
    }
}

/// Adds the variables that a loop body declares to the list.
fn push_body_vars(vars: &mut Vec<String>, body: &Expr)
    ensures
        name_set(final(vars)@) == name_set(old(vars)@).union(body_vars(*body)),
        final(vars)@.len() >= old(vars)@.len(),
        final(vars)@.take(old(vars)@.len() as int) == old(vars)@,
{
    let places = reach(Walk::Inner, Piece::Expr(body));
    let ghost start = vars@;
    let mut i: usize = 0;
    assert(vars@.take(start.len() as int) =~= start);
    while i < places.len()
        invariant
            i <= places@.len(),
            vars@.len() >= start.len(),
            vars@.take(start.len() as int) == start,
            forall|n: Seq<char>| #[trigger]
                has_name(vars@, n) <==> has_name(start, n) || exists|k: int|
                    0 <= k < i && declares(#[trigger] places@[k], n),
        decreases places@.len() - i,
    {
        let ghost before = vars@;
        if let Piece::Stmt(s) = places[i] {
            match &s.kind {
                StmtKind::ValDecl { name, .. } | StmtKind::VarDecl { name, .. } => {
                    vars.push(name.clone());
                    assert(vars@.take(start.len() as int) =~= before.take(start.len() as int));
                    assert forall|n: Seq<char>| has_name(vars@, n) <==> has_name(before, n) || n == name@ by {
                        assert(vars@.last()@ == name@);
                        if has_name(before, n) {
                            let k = choose|k: int| 0 <= k < before.len() && (#[trigger] before[k])@ == n;
                            assert(vars@[k]@ == n);
                        }
                    }
                },
                _ => {},
            }
        }
        assert forall|n: Seq<char>| #[trigger]
            has_name(vars@, n) <==> has_name(start, n) || exists|k: int|
                0 <= k < i + 1 && declares(#[trigger] places@[k], n) by {
            assert(has_name(vars@, n) <==> has_name(before, n) || declares(places@[i as int], n));
        }
        i = i + 1;
    }
    assert(name_set(vars@) =~= name_set(start).union(body_vars(*body)));
}

fn has_param(params: &Vec<Param>, name: &String) -> (r: bool)
    ensures
        r == is_param(params@, name@),
{
    let mut i: usize = 0;
    while i < params.len()
        invariant
            i <= params@.len(),
            forall|k: int| 0 <= k < i ==> (#[trigger] params@[k]).name@ != name@,
        decreases params@.len() - i,
    {
        if params[i].name == *name {
            return true;
        }
        i = i + 1;
    }
    false
}

fn captures_one(params: &Vec<Param>, body: &Expr, vars: &Vec<String>) -> (r: bool)
    ensures
        r == captures(params@, *body, name_set(vars@)),
{
    let names = collect_free_idents(body);
    let mut i: usize = 0;
    while i < names.len()
        invariant
            i <= names@.len(),
            views(names@) == free_names(*body),
            forall|k: int|
                0 <= k < i ==> !(!is_param(params@, (#[trigger] names@[k])@) && name_set(vars@).contains(names@[k]@)),
        decreases names@.len() - i,
    {
        if !has_param(params, &names[i]) && holds_name(vars, &names[i]) {
            assert(views(names@)[i as int] == names@[i as int]@);
            assert(free_names(*body).contains(names@[i as int]@));
            return true;
        }
        i = i + 1;
    }
    assert forall|name: Seq<char>| #[trigger] free_names(*body).contains(name) implies !(!is_param(params@, name)
        && name_set(vars@).contains(name)) by {
        let k = choose|k: int| 0 <= k < views(names@).len() && views(names@)[k] == name;
        assert(names@[k]@ == name);
    }
    false
}

/// Lists the lambdas at and below a place that capture a variable of a loop
/// body.
fn scan_lambda_escapes<'a>(p: Piece<'a>, vars: &Vec<String>, out: &mut Vec<u32>)
    ensures
        final(out)@ == old(out)@ + capturing(p, name_set(vars@)),
    decreases piece_size(p),
{
    let ghost set = name_set(vars@);
    let ghost start = out@;
    let ghost steps = scoped_steps(p, set);
    proof {
        lemma_parts_within(p);
    }
    match p {
        Piece::Expr(e) | Piece::Tail(e) => {
            if let ExprKind::Lambda { params, body } = &e.kind {
                if captures_one(params, body, vars) {
                    out.push(e.id.0);
                }
            }
        },
        Piece::Stmt(_) => {},
    }
    assert(out@ =~= start + capturing_at(p, set));
    let ghost own = out@;
    let mut inner: Vec<String> = Vec::new();
    let mut fresh: bool = false;
    let mut loop_body: Option<&'a Expr> = None;
    match p {
        Piece::Expr(e) | Piece::Tail(e) => {
            if let ExprKind::InlineTrait(_) = &e.kind {
                assert(capturing_below(p, set, 0) =~= seq![]);
                assert(out@ =~= start + capturing(p, set));
                return;
            }
        },
        Piece::Stmt(s) => match &s.kind {
            StmtKind::For { body, .. } | StmtKind::While { body, .. } | StmtKind::Loop { body } => {
                loop_body = Some(body);
            },
            StmtKind::LocalDecl { .. } => {
                fresh = true;
            },
            _ => {},
        },
    }
    let mut next: Vec<Piece<'a>> = Vec::new();
    push_parts(&mut next, p);
    assert(next@ =~= parts(p));
    assert(steps.len() == next@.len());
    if !fresh {
        let mut k: usize = 0;
        while k < vars.len()
            invariant
                k <= vars@.len(),
                inner@ =~= vars@.take(k as int),
            decreases vars@.len() - k,
        {
            inner.push(vars[k].clone());
            k = k + 1;
        }
        assert(inner@ =~= vars@);
    }
    let ghost outer = name_set(inner@);
    assert(outer =~= if fresh { Set::empty() } else { set });
    if let Some(b) = loop_body {
        push_body_vars(&mut inner, b);
    }
    let empty: Vec<String> = Vec::new();
    assert(name_set(empty@) =~= Set::empty());
    let mut i: usize = 0;
    assert(out@ =~= own + capturing_below(p, set, 0));
    while i < next.len()
        invariant
            i <= next@.len(),
            next@ == parts(p),
            set == name_set(vars@),
            steps == scoped_steps(p, set),
            steps.len() == next@.len(),
            within(parts(p), (piece_size(p) - 1) as nat),
            name_set(empty@) == Set::<Seq<char>>::empty(),
            forall|k: int| 0 <= k < steps.len() ==> (#[trigger] steps[k]).piece == next@[k],
            forall|k: int|
                0 <= k < steps.len() ==> (#[trigger] steps[k]).vars == (if fresh {
                    Set::empty()
                } else if loop_body is Some && k == steps.len() - 1 {
                    name_set(inner@)
                } else {
                    set
                }),
            out@ == own + capturing_below(p, set, i as nat),
        decreases next@.len() - i,
    {
        assert(piece_size(next@[i as int]) <= (piece_size(p) - 1) as nat);
        assert(steps[i as int].piece == next@[i as int]);
        if fresh {
            scan_lambda_escapes(next[i], &empty, out);
        } else if loop_body.is_some() && i == next.len() - 1 {
            scan_lambda_escapes(next[i], &inner, out);
        } else {
            scan_lambda_escapes(next[i], vars, out);
        }
        i = i + 1;
        assert(out@ =~= own + capturing_below(p, set, i as nat));
    }
    assert(out@ =~= start + capturing(p, set));
}

// ---- a body and the bodies in it -------------------------------------------

/// The body of the lambda or local function that stands at a place.
pub open spec fn nested_body<'a>(p: Piece<'a>) -> Option<&'a Expr> {
    match p {
        Piece::Expr(e) | Piece::Tail(e) => match e.kind {
            ExprKind::Lambda { body, .. } => Some(&*body),
            _ => None,
        },
        Piece::Stmt(s) => match s.kind {
            StmtKind::LocalDecl { decl } => match *decl {
                Decl::Fun(f) => Some(&f.body),
                _ => None,
            },
            _ => None,
        },
    }
}

/// What is found of a lambda: that it escapes, and whether by capturing a
/// variable of a loop body.
pub struct Mark {
    pub lambda: u32,
    pub loop_body_capture: bool,
}

pub open spec fn marks(lambdas: Seq<u32>, loop_body_capture: bool) -> Seq<Mark> {
    Seq::new(lambdas.len(), |i: int| Mark { lambda: lambdas[i], loop_body_capture })
}

/// What is found of the lambdas of a body, in order: of those that it returns,
/// of those in the bodies inside it, then of those that capture a variable of
/// a loop body.
pub open spec fn body_marks(body: Expr) -> Seq<Mark>
    decreases piece_size(Piece::Expr(&body)), reached(Walk::Full, Piece::Expr(&body)).len() + 1,
{
    let s = reached(Walk::Full, Piece::Expr(&body));
    marks(returned_lambdas(body), false) + nested_marks(body, s.len() as nat) + marks(
        capturing(Piece::Expr(&body), Set::empty()),
        true,
    )
}

/// What is found of the lambdas in the bodies at the first `k` places.
pub open spec fn nested_marks(body: Expr, k: nat) -> Seq<Mark>
    decreases piece_size(Piece::Expr(&body)), k,
    via nested_marks_decreases
{
    let s = reached(Walk::Full, Piece::Expr(&body));
    if k == 0 || k > s.len() {
        seq![]
    } else {
        nested_marks(body, (k - 1) as nat) + match nested_body(s[k - 1]) {
            Some(b) => body_marks(*b),
            None => seq![],
        }
    }
}

#[via_fn]
proof fn nested_marks_decreases(body: Expr, k: nat) {
    let s = reached(Walk::Full, Piece::Expr(&body));
    if k == 0 || k > s.len() {
    } else {
        lemma_nested_is_smaller(body, k - 1);
    }
}

proof fn lemma_nested_is_smaller(body: Expr, i: int)
    requires
        0 <= i < reached(Walk::Full, Piece::Expr(&body)).len(),
    ensures
        nested_body(reached(Walk::Full, Piece::Expr(&body))[i]) matches Some(b) ==> piece_size(Piece::Expr(b))
            < piece_size(Piece::Expr(&body)),
{
    let p = Piece::Expr(&body);
    let s = reached(Walk::Full, p);
    assert(s.contains(s[i]));
    law_reached_is_inside(Walk::Full, p, s[i]);
    let q = s[i];
    lemma_parts_within(q);
    if let Some(b) = nested_body(q) {
        assert(parts(q)[0] == Piece::Expr(b));
        assert(piece_size(parts(q)[0]) <= (piece_size(q) - 1) as nat);
    }
}

/// The table with what was found, the later mark of a lambda in place of an
/// earlier one.
pub open spec fn with_marks(t: Map<u32, EscapeInfo>, ms: Seq<Mark>) -> Map<u32, EscapeInfo>
    decreases ms.len(),
{
    if ms.len() == 0 {
        t
    } else {
        with_marks(t, ms.drop_last()).insert(
            ms.last().lambda,
            EscapeInfo::Escapes(EscapeKind::Lambda { loop_body_capture: ms.last().loop_body_capture }),
        )
    }
}

proof fn lemma_with_marks_join(t: Map<u32, EscapeInfo>, a: Seq<Mark>, b: Seq<Mark>)
    ensures
        with_marks(t, a + b) == with_marks(with_marks(t, a), b),
    decreases b.len(),
{
    if b.len() == 0 {
        assert(a + b =~= a);
    } else {
        assert((a + b).drop_last() =~= a + b.drop_last());
        lemma_with_marks_join(t, a, b.drop_last());
    }
}

fn put_marks(table: &mut EscapeTable, lambdas: &Vec<u32>, loop_body_capture: bool)
    requires
        old(table).wf(),
    ensures
        final(table).wf(),
        final(table).map@ == with_marks(old(table).map@, marks(lambdas@, loop_body_capture)),
{
    let ghost start = table.map@;
    let mut i: usize = 0;
    assert(marks(lambdas@.take(0), loop_body_capture) =~= seq![]);
    while i < lambdas.len()
        invariant
            i <= lambdas@.len(),
            table.wf(),
            table.map@ == with_marks(start, marks(lambdas@.take(i as int), loop_body_capture)),
        decreases lambdas@.len() - i,
    {
        let ghost next = marks(lambdas@.take(i + 1), loop_body_capture);
        assert(next.drop_last() =~= marks(lambdas@.take(i as int), loop_body_capture));
        table.put(ExprId(lambdas[i]), EscapeInfo::Escapes(EscapeKind::Lambda { loop_body_capture }));
        i = i + 1;
    }
    assert(lambdas@.take(i as int) =~= lambdas@);
}

/// Marks the escaping lambdas of a body and of the bodies in it.
pub fn analyze_body_lambdas(body: &Expr, table: &mut EscapeTable)
    requires
        old(table).wf(),
    ensures
        final(table).wf(),
        final(table).map@ == with_marks(old(table).map@, body_marks(*body)),
    decreases piece_size(Piece::Expr(body)),
{
    let ghost start = table.map@;
    let tails = find_escaping_lambdas(body);
    let mut ids: Vec<u32> = Vec::new();
    let mut k: usize = 0;
    while k < tails.len()
        invariant
            k <= tails@.len(),
            ids@ =~= tails@.take(k as int).map_values(|e: ExprId| e.0),
        decreases tails@.len() - k,
    {
        ids.push(tails[k].0);
        k = k + 1;
    }
    assert(tails@.take(k as int) =~= tails@);
    put_marks(table, &ids, false);
    let ghost first = marks(returned_lambdas(*body), false);
    let places = reach(Walk::Full, Piece::Expr(body));
    let mut i: usize = 0;
    assert(first + nested_marks(*body, 0) =~= first);
    while i < places.len()
        invariant
            i <= places@.len(),
            places@ == reached(Walk::Full, Piece::Expr(body)),
            table.wf(),
            table.map@ == with_marks(start, first + nested_marks(*body, i as nat)),
        decreases places@.len() - i,
    {
        proof {
            lemma_nested_is_smaller(*body, i as int);
        }
        let ghost so_far = first + nested_marks(*body, i as nat);
        let inner: Option<&Expr> = match places[i] {
            Piece::Expr(e) | Piece::Tail(e) => match &e.kind {
                ExprKind::Lambda { body: b, .. } => Some(b),
                _ => None,
            },
            Piece::Stmt(s) => match &s.kind {
                StmtKind::LocalDecl { decl } => match &**decl {
                    Decl::Fun(f) => Some(&f.body),
                    _ => None,
                },
                _ => None,
            },
        };
        assert(inner == nested_body(places@[i as int]));
        if let Some(b) = inner {
            analyze_body_lambdas(b, table);
            proof {
                lemma_with_marks_join(start, so_far, body_marks(*b));
                assert(so_far + body_marks(*b) =~= first + nested_marks(*body, (i + 1) as nat));
            }
        } else {
            assert(so_far =~= first + nested_marks(*body, (i + 1) as nat));
        }
        i = i + 1;
    }
    let none: Vec<String> = Vec::new();
    assert(name_set(none@) =~= Set::empty());
    let mut caught: Vec<u32> = Vec::new();
    scan_lambda_escapes(Piece::Expr(body), &none, &mut caught);
    assert(caught@ =~= capturing(Piece::Expr(body), Set::empty()));
    put_marks(table, &caught, true);
    proof {
        lemma_with_marks_join(
            start,
            first + nested_marks(*body, places@.len() as nat),
            marks(capturing(Piece::Expr(body), Set::empty()), true),
        );
    }
}

/// What is found of the lambdas of the functions among the first `k`
/// declarations.
pub open spec fn module_marks(m: Module, k: int) -> Seq<Mark>
    decreases k,
{
    if k <= 0 {
        seq![]
    } else {
        module_marks(m, k - 1) + match m.declarations@[k - 1] {
            Decl::Fun(f) => body_marks(f.body),
            _ => seq![],
        }
    }
}

/// Marks the escaping lambdas of the module's functions.
pub fn analyze_lambda_escape(module: &Module, table: &mut EscapeTable)
    requires
        old(table).wf(),
    ensures
        final(table).wf(),
        final(table).map@ == with_marks(
            old(table).map@,
            module_marks(*module, module.declarations@.len() as int),
        ),
{
    let ghost start = table.map@;
    let mut i: usize = 0;
    while i < module.declarations.len()
        invariant
            i <= module.declarations@.len(),
            table.wf(),
            table.map@ == with_marks(start, module_marks(*module, i as int)),
        decreases module.declarations@.len() - i,
    {
        let ghost so_far = module_marks(*module, i as int);
        if let Decl::Fun(f) = &module.declarations[i] {
            analyze_body_lambdas(&f.body, table);
            proof {
                lemma_with_marks_join(start, so_far, body_marks(f.body));
            }
        } else {
            assert(so_far =~= module_marks(*module, i + 1));
        }
        i = i + 1;
    }
}

/// A lambda that captures a variable of a loop body around it, in the scope of
/// a body, is marked so in the end: no other mark of that body comes later.
pub proof fn law_loop_capture_is_kept(t: Map<u32, EscapeInfo>, body: Expr, lambda: u32)
    requires
        capturing(Piece::Expr(&body), Set::empty()).contains(lambda),
    ensures
        with_marks(t, body_marks(body)).contains_key(lambda),
        with_marks(t, body_marks(body))[lambda] == EscapeInfo::Escapes(
            EscapeKind::Lambda { loop_body_capture: true },
        ),
{
    let c = capturing(Piece::Expr(&body), Set::empty());
    let s = reached(Walk::Full, Piece::Expr(&body));
    let before = marks(returned_lambdas(body), false) + nested_marks(body, s.len() as nat);
    lemma_with_marks_join(t, before, marks(c, true));
    lemma_marks_stay(with_marks(t, before), c, lambda);
}

proof fn lemma_marks_stay(t: Map<u32, EscapeInfo>, c: Seq<u32>, lambda: u32)
    requires
        c.contains(lambda),
    ensures
        with_marks(t, marks(c, true)).contains_key(lambda),
        with_marks(t, marks(c, true))[lambda] == EscapeInfo::Escapes(EscapeKind::Lambda { loop_body_capture: true }),
    decreases c.len(),
{
    assert(marks(c, true).drop_last() =~= marks(c.drop_last(), true));
    if c.last() != lambda {
        let i = choose|i: int| 0 <= i < c.len() && c[i] == lambda;
        assert(c.drop_last()[i] == lambda);
        lemma_marks_stay(t, c.drop_last(), lambda);
    }
}

proof fn lemma_marked(t: Map<u32, EscapeInfo>, ms: Seq<Mark>, k: int)
    requires
        0 <= k < ms.len(),
    ensures
        with_marks(t, ms).contains_key(ms[k].lambda),
        with_marks(t, ms)[ms[k].lambda] == EscapeInfo::Escapes(EscapeKind::Lambda { loop_body_capture: true })
            || with_marks(t, ms)[ms[k].lambda] == EscapeInfo::Escapes(EscapeKind::Lambda { loop_body_capture: false }),
    decreases ms.len(),
{
    if k < ms.len() - 1 {
        assert(ms.drop_last()[k] == ms[k]);
        lemma_marked(t, ms.drop_last(), k);
    }
}

/// A lambda that a body returns escapes.
pub proof fn law_returned_lambdas_escape(t: Map<u32, EscapeInfo>, body: Expr, e: Expr)
    requires
        reached(Walk::TailLambdas, Piece::Expr(&body)).contains(Piece::Expr(&e)),
        e.kind is Lambda,
    ensures
        with_marks(t, body_marks(body)).contains_key(e.id.0),
        with_marks(t, body_marks(body))[e.id.0] == EscapeInfo::Escapes(EscapeKind::Lambda { loop_body_capture: true })
            || with_marks(t, body_marks(body))[e.id.0] == EscapeInfo::Escapes(
            EscapeKind::Lambda { loop_body_capture: false },
        ),
{
    let s = reached(Walk::TailLambdas, Piece::Expr(&body));
    let i = choose|i: int| 0 <= i < s.len() && s[i] == Piece::Expr(&e);
    lemma_lambda_is_listed(lambda_vars(body), s, s.len() as int, i);
    lemma_returned_is_marked(t, body, e.id.0);
}

/// So does a lambda that a variable holds whose name the body returns; where
/// several lambdas are bound to one name, the last.
pub proof fn law_lambdas_returned_by_name_escape(t: Map<u32, EscapeInfo>, body: Expr, e: Expr, name: String)
    requires
        reached(Walk::TailLambdas, Piece::Expr(&body)).contains(Piece::Expr(&e)),
        e.kind == ExprKind::Ident(name),
        lambda_vars(body).contains_key(name@),
    ensures
        with_marks(t, body_marks(body)).contains_key(lambda_vars(body)[name@]),
        with_marks(t, body_marks(body))[lambda_vars(body)[name@]] is Escapes,
{
    let s = reached(Walk::TailLambdas, Piece::Expr(&body));
    let i = choose|i: int| 0 <= i < s.len() && s[i] == Piece::Expr(&e);
    lemma_lambda_is_listed(lambda_vars(body), s, s.len() as int, i);
    lemma_returned_is_marked(t, body, lambda_vars(body)[name@]);
}

proof fn lemma_lambda_is_listed(vars: Map<Seq<char>, u32>, s: Seq<Piece>, n: int, i: int)
    requires
        0 <= i < n <= s.len(),
        lambda_at(vars, s[i]) is Some,
    ensures
        lambdas_upto(vars, s, n).contains(lambda_at(vars, s[i])->0),
    decreases n,
{
    let r = lambdas_upto(vars, s, n - 1);
    let x = lambda_at(vars, s[i])->0;
    if i < n - 1 {
        lemma_lambda_is_listed(vars, s, n - 1, i);
        let k = choose|k: int| 0 <= k < r.len() && r[k] == x;
        if let Some(y) = lambda_at(vars, s[n - 1]) {
            assert(r.push(y)[k] == x);
        }
    } else {
        assert(r.push(x)[r.len() as int] == x);
    }
}

proof fn lemma_returned_is_marked(t: Map<u32, EscapeInfo>, body: Expr, id: u32)
    requires
        returned_lambdas(body).contains(id),
    ensures
        with_marks(t, body_marks(body)).contains_key(id),
        with_marks(t, body_marks(body))[id] == EscapeInfo::Escapes(EscapeKind::Lambda { loop_body_capture: true })
            || with_marks(t, body_marks(body))[id] == EscapeInfo::Escapes(EscapeKind::Lambda { loop_body_capture: false }),
{
    let r = returned_lambdas(body);
    let k = choose|k: int| 0 <= k < r.len() && r[k] == id;
    let ms = body_marks(body);
    assert(marks(r, false)[k].lambda == id);
    assert(ms[k].lambda == id);
    lemma_marked(t, ms, k);
}

/// The variable of a declaration whose value is a lambda holds it, unless a later
/// one of the name holds another.
pub proof fn law_declared_lambdas_are_held(body: Expr, s: Stmt)
    requires
        reached(Walk::Vars, Piece::Expr(&body)).contains(Piece::Stmt(&s)),
        ({
            ||| s.kind matches StmtKind::ValDecl { value, .. } && value.kind is Lambda
            ||| s.kind matches StmtKind::VarDecl { value, .. } && value.kind is Lambda
        }),
    ensures
        s.kind matches StmtKind::ValDecl { name, .. } ==> lambda_vars(body).contains_key(name@),
        s.kind matches StmtKind::VarDecl { name, .. } ==> lambda_vars(body).contains_key(name@),
{
    let all = reached(Walk::Vars, Piece::Expr(&body));
    let i = choose|i: int| 0 <= i < all.len() && all[i] == Piece::Stmt(&s);
    lemma_bound_stays(all, all.len() as int, i);
}

proof fn lemma_bound_stays(s: Seq<Piece>, n: int, i: int)
    requires
        0 <= i < n <= s.len(),
        lambda_binding(s[i]) is Some,
    ensures
        bound_upto(s, n).contains_key((lambda_binding(s[i])->0).0),
    decreases n,
{
    if i < n - 1 {
        lemma_bound_stays(s, n - 1, i);
    }
}

/// A lambda captures a variable where the name occurs in its body and is none of
/// its parameters.
pub proof fn law_used_variables_are_captured(params: Seq<Param>, body: Expr, vars: Set<Seq<char>>, x: Expr, name: String)
    requires
        reached(Walk::Full, Piece::Expr(&body)).contains(Piece::Expr(&x)),
        x.kind == ExprKind::Ident(name),
        forall|i: int| 0 <= i < params.len() ==> (#[trigger] params[i]).name@ != name@,
        vars.contains(name@),
    ensures
        captures(params, body, vars),
{
    let s = reached(Walk::Full, Piece::Expr(&body));
    let i = choose|i: int| 0 <= i < s.len() && s[i] == Piece::Expr(&x);
    assert(name_at(s[i]) == Some(name@));
    assert(occurs_in(body, name@));
    law_free_names_are_listed_once(seq![], body, name@);
    assert(free_names(body).contains(name@));
}

/// The lambdas in the body of a loop that capture a variable of that body, or of
/// one around it, are found; so is a capturing lambda itself.
pub proof fn law_captures_in_loops_are_found(s: Stmt, e: Expr, vars: Set<Seq<char>>, id: u32)
    ensures
        s.kind matches StmtKind::For { body, .. } ==> capturing(
            Piece::Expr(&body),
            vars.union(body_vars(body)),
        ).contains(id) ==> capturing(Piece::Stmt(&s), vars).contains(id),
        s.kind matches StmtKind::While { body, .. } ==> capturing(
            Piece::Expr(&body),
            vars.union(body_vars(body)),
        ).contains(id) ==> capturing(Piece::Stmt(&s), vars).contains(id),
        s.kind matches StmtKind::Loop { body } ==> capturing(Piece::Expr(&body), vars.union(body_vars(body))).contains(id)
            ==> capturing(Piece::Stmt(&s), vars).contains(id),
        e.kind matches ExprKind::Lambda { params, body } ==> captures(params@, *body, vars) ==> capturing(
            Piece::Expr(&e),
            vars,
        ).contains(e.id.0),
{
    let p = Piece::Stmt(&s);
    let st = scoped_steps(p, vars);
    match s.kind {
        StmtKind::For { body, .. } | StmtKind::While { body, .. } => {
            assert(st[1].piece == Piece::Expr(&body) && st[1].vars == vars.union(body_vars(body)));
            lemma_found_below(p, vars, st.len(), 1, id);
        },
        StmtKind::Loop { body } => {
            assert(st[0].piece == Piece::Expr(&body) && st[0].vars == vars.union(body_vars(body)));
            lemma_found_below(p, vars, st.len(), 0, id);
        },
        _ => {},
    }
    if let ExprKind::Lambda { params, body } = e.kind {
        if captures(params@, *body, vars) {
            let q = Piece::Expr(&e);
            assert(capturing_at(q, vars)[0] == e.id.0);
            assert(capturing(q, vars)[0] == e.id.0);
        }
    }
}

proof fn lemma_found_below<'a>(p: Piece<'a>, vars: Set<Seq<char>>, k: nat, i: int, id: u32)
    requires
        0 <= i < k <= scoped_steps(p, vars).len(),
    ensures
        capturing(scoped_steps(p, vars)[i].piece, scoped_steps(p, vars)[i].vars).contains(id) ==> capturing_below(
            p,
            vars,
            k,
        ).contains(id) && (capturing_at(p, vars) + capturing_below(p, vars, k)).contains(id),
    decreases k,
{
    let st = scoped_steps(p, vars);
    if capturing(st[i].piece, st[i].vars).contains(id) {
        let a = capturing_below(p, vars, (k - 1) as nat);
        let b = capturing(st[k - 1].piece, st[k - 1].vars);
        assert(capturing_below(p, vars, k) == a + b);
        if i < k - 1 {
            lemma_found_below(p, vars, (k - 1) as nat, i, id);
            let j = choose|j: int| 0 <= j < a.len() && a[j] == id;
            assert((a + b)[j] == id);
        } else {
            let j = choose|j: int| 0 <= j < b.len() && b[j] == id;
            assert((a + b)[a.len() + j] == id);
        }
        let h = capturing_at(p, vars);
        let j = choose|j: int| 0 <= j < (a + b).len() && (a + b)[j] == id;
        assert((h + (a + b))[h.len() + j] == id);
    }
}

/// A variable that a loop body declares outside lambdas and local functions is
/// one of the body's.
pub proof fn law_declared_variables_are_of_the_body(body: Expr, s: Stmt, name: String)
    requires
        reached(Walk::Inner, Piece::Expr(&body)).contains(Piece::Stmt(&s)),
        ({
            ||| s.kind matches StmtKind::ValDecl { name: n, .. } && n == name
            ||| s.kind matches StmtKind::VarDecl { name: n, .. } && n == name
        }),
    ensures
        body_vars(body).contains(name@),
{
    let all = reached(Walk::Inner, Piece::Expr(&body));
    let i = choose|i: int| 0 <= i < all.len() && all[i] == Piece::Stmt(&s);
    assert(declares(all[i], name@));
}

/// What is found of the lambdas in a lambda or local function inside a body is
/// found of that body.
pub proof fn law_inner_bodies_are_searched(t: Map<u32, EscapeInfo>, body: Expr, p: Piece, b: Expr, k: int)
    requires
        reached(Walk::Full, Piece::Expr(&body)).contains(p),
        match p {
            Piece::Expr(e) => e.kind matches ExprKind::Lambda { body: x, .. } && *x == b,
            Piece::Stmt(s) => s.kind matches StmtKind::LocalDecl { decl } && (*decl matches Decl::Fun(f) && f.body == b),
            Piece::Tail(_) => false,
        },
        0 <= k < body_marks(b).len(),
    ensures
        with_marks(t, body_marks(body)).contains_key(body_marks(b)[k].lambda),
        with_marks(t, body_marks(body))[body_marks(b)[k].lambda] is Escapes,
{
    let s = reached(Walk::Full, Piece::Expr(&body));
    let i = choose|i: int| 0 <= i < s.len() && s[i] == p;
    let x = body_marks(b)[k];
    let j = lemma_nested_mark(body, s.len() as nat, i, b, k);
    let first = marks(returned_lambdas(body), false);
    let mid = nested_marks(body, s.len() as nat);
    let ms = body_marks(body);
    assert(ms[first.len() + j] == x);
    lemma_marked(t, ms, first.len() + j);
}

proof fn lemma_nested_mark(body: Expr, n: nat, i: int, b: Expr, k: int) -> (j: int)
    requires
        0 <= i < n <= reached(Walk::Full, Piece::Expr(&body)).len(),
        nested_body(reached(Walk::Full, Piece::Expr(&body))[i]) == Some(&b),
        0 <= k < body_marks(b).len(),
    ensures
        0 <= j < nested_marks(body, n).len(),
        nested_marks(body, n)[j] == body_marks(b)[k],
    decreases n,
{
    let s = reached(Walk::Full, Piece::Expr(&body));
    let a = nested_marks(body, (n - 1) as nat);
    let c = match nested_body(s[n - 1]) {
        Some(x) => body_marks(*x),
        None => seq![],
    };
    assert(nested_marks(body, n) == a + c);
    if i < n - 1 {
        let j = lemma_nested_mark(body, (n - 1) as nat, i, b, k);
        assert((a + c)[j] == a[j]);
        j
    } else {
        assert((a + c)[a.len() + k] == c[k]);
        a.len() + k
    }
}

} // verus!
