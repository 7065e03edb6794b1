//! Which arrays and records outlive the function that makes them.

use super::call_graph::CallGraph;
use super::def_use::{collect_globals, globals};
use super::functions::FuncMetaRef;
use super::lambda_escape::{analyze_lambda_escape, module_marks, name_at, with_marks, Mark};
use super::tables::{EscapeInfo, EscapeKind, EscapeTable, FuncId, Purity, PurityTable};
use crate::ast::binds::{bindings_at, bindings_upto, find_root_var, list_bindings, root_var, Binding};
use crate::ast::tree::{Expr, ExprKind, Module, Stmt, StmtKind};
use crate::ast::walk::{
    expr_parts, expr_pieces, ident_of, is_ident, law_reached, law_reached_is_transitive, push_exprs, push_parts,
    push_reached, reach, reached, stmt_parts, steps, Piece, Walk,
};
use crate::fx::NameSet;
use vstd::prelude::*;

verus! {

/// Whether the expression makes an array or a record.
pub open spec fn allocates(e: Expr) -> bool {
    e.kind is ArrayLit || e.kind is RecordLit || e.kind is RecordExtend
}

pub open spec fn allocation_at(p: Piece, id: u32) -> bool {
    match p {
        Piece::Expr(e) | Piece::Tail(e) => allocates(*e) && e.id.0 == id,
        Piece::Stmt(_) => false,
    }
}

/// The allocations at the first `n` places.
pub open spec fn allocations_upto(s: Seq<Piece>, n: int) -> Set<u32> {
    Set::new(|id: u32| exists|i: int| 0 <= i < n && allocation_at(#[trigger] s[i], id))
}

/// The allocations in an expression, those of lambdas and local functions in it
/// left aside.
pub open spec fn allocations(p: Piece) -> Set<u32> {
    let s = reached(Walk::Inner, p);
    allocations_upto(s, s.len() as int)
}

/// The allocations in the first `k` of the expressions.
pub open spec fn allocations_in(s: Seq<Piece>, k: int) -> Set<u32> {
    Set::new(|id: u32| exists|i: int| 0 <= i < k && (#[trigger] allocations(s[i])).contains(id))
}

/// What is known of the names around a function: the functions of the module,
/// which of them are pure, and the variables of the module.
pub ghost struct Setting {
    pub names: Map<Seq<char>, u32>,
    pub purity: PurityTable,
    pub globals: Set<Seq<char>>,
}

/// Whether a call keeps its arguments to itself: it calls a function by a name
/// that is known to be that of a pure one.
pub open spec fn keeps_arguments(o: Setting, callee: Expr) -> bool {
    match callee.kind {
        ExprKind::Ident(name) => o.names.contains_key(name@) && o.purity.of(FuncId(o.names[name@])) == Some(
            Purity::Pure,
        ),
        _ => false,
    }
}

/// The expressions that leave the function at a place: what is returned or
/// thrown, what is stored in a part of something, what is handed to another
/// function or a method, and what a function inside this one refers to.
pub open spec fn handed_out<'a>(o: Setting, p: Piece<'a>) -> Seq<Piece<'a>> {
    match p {
        Piece::Expr(e) | Piece::Tail(e) => match e.kind {
            ExprKind::Call { callee, args } => if keeps_arguments(o, *callee) {
                seq![]
            } else {
                expr_pieces(args@)
            },
            ExprKind::MethodCall { args, .. } | ExprKind::SafeMethodCall { args, .. } => expr_pieces(args@),
            ExprKind::Lambda { .. } | ExprKind::InlineTrait(_) => reached(Walk::Full, p),
            ExprKind::Propagate(x) => seq![Piece::Expr(&*x)],
            ExprKind::RecordExtend { base, .. } => seq![Piece::Expr(&*base)],
            ExprKind::Assign { target, value } | ExprKind::CompoundAssign { target, value } => if is_ident(*target) {
                seq![]
            } else {
                seq![Piece::Expr(&*value)]
            },
            _ => seq![],
        },
        Piece::Stmt(s) => match s.kind {
            StmtKind::Return { .. } | StmtKind::Throw { .. } => stmt_parts(*s),
            StmtKind::LocalDecl { .. } => reached(Walk::Full, p),
            StmtKind::FieldAssignment { value, .. } => seq![Piece::Expr(&value)],
            StmtKind::Assignment { target, value } | StmtKind::CompoundAssignment { target, value } => {
                if is_ident(target) {
                    seq![]
                } else {
                    seq![Piece::Expr(&value)]
                }
            },
            _ => seq![],
        },
    }
}

/// What leaves the function at the first `n` places.
pub open spec fn handed_out_upto<'a>(o: Setting, s: Seq<Piece<'a>>, n: int) -> Seq<Piece<'a>>
    decreases n,
{
    if n <= 0 {
        seq![]
    } else {
        handed_out_upto(o, s, n - 1) + handed_out(o, s[n - 1])
    }
}

/// Whether the value at a place in a tail position is not that of a part of it
/// in one.
pub open spec fn own_value(p: Piece) -> bool {
    match p {
        Piece::Expr(e) | Piece::Tail(e) => !(e.kind is Block || e.kind is If || e.kind is Match),
        Piece::Stmt(_) => false,
    }
}

/// The values of a body, given the first `n` places whose value it may have.
pub open spec fn tail_values_upto<'a>(s: Seq<Piece<'a>>, n: int) -> Seq<Piece<'a>>
    decreases n,
{
    if n <= 0 {
        seq![]
    } else if own_value(s[n - 1]) {
        tail_values_upto(s, n - 1).push(s[n - 1])
    } else {
        tail_values_upto(s, n - 1)
    }
}

/// The expressions whose value the body may have as its own.
pub open spec fn tail_values<'a>(body: Expr) -> Seq<Piece<'a>> {
    let s = reached(Walk::TailCalls, Piece::Expr(&body));
    tail_values_upto(s, s.len() as int)
}

/// The expressions that leave a function of that body: the values of the body,
/// and what its places hand out.
pub open spec fn leaving<'a>(o: Setting, body: Expr) -> Seq<Piece<'a>> {
    let s = reached(Walk::Inner, Piece::Expr(&body));
    tail_values(body) + handed_out_upto(o, s, s.len() as int)
}

/// What a body gives to its variables.
pub open spec fn body_bindings<'a>(body: Expr) -> Seq<Binding<'a>> {
    let s = reached(Walk::Inner, Piece::Expr(&body));
    bindings_upto(s, s.len() as int)
}

/// The variable of which a place takes a part: an item, a field, or what a
/// method gives.
pub open spec fn part_root<'a>(p: Piece<'a>) -> Option<&'a String> {
    match p {
        Piece::Expr(e) | Piece::Tail(e) => match e.kind {
            ExprKind::Index { recv, .. }
            | ExprKind::FieldAccess { recv }
            | ExprKind::SafeAccess { recv }
            | ExprKind::MethodCall { recv, .. }
            | ExprKind::SafeMethodCall { recv, .. } => root_var(*recv),
            _ => None,
        },
        Piece::Stmt(_) => None,
    }
}

/// Whether the value at the place may be or hold that of the variable.
pub open spec fn carries(p: Piece, name: Seq<char>) -> bool {
    let s = reached(Walk::Carried, p);
    exists|i: int| 0 <= i < s.len() && name_at(#[trigger] s[i]) == Some(name)
}

/// Whether the value at the place may be or hold a part of the variable.
pub open spec fn carries_part(p: Piece, name: Seq<char>) -> bool {
    let s = reached(Walk::Carried, p);
    exists|i: int| 0 <= i < s.len() && (part_root(#[trigger] s[i]) matches Some(n) && n@ == name)
}

/// Whether the value at the place may be or hold the variable or a part of it.
pub open spec fn draws_on(p: Piece, name: Seq<char>) -> bool {
    carries(p, name) || carries_part(p, name)
}

/// The set holds the variables that the expressions draw on, and with each
/// variable those that its values draw on.
pub open spec fn holds_names(out: Seq<Piece>, bs: Seq<Binding>, names: Set<Seq<char>>) -> bool {
    &&& forall|i: int, n: Seq<char>| 0 <= i < out.len() && #[trigger] draws_on(out[i], n) ==> names.contains(n)
    &&& forall|i: int, n: Seq<char>|
        0 <= i < bs.len() && names.contains(bs[i].name@) && #[trigger] draws_on(Piece::Expr(bs[i].value), n)
            ==> names.contains(n)
}

/// The variables of which something may leave a function of that body: those of
/// the module, those that what leaves draws on, and those that a value of such
/// a variable draws on.
pub open spec fn leaving_names(o: Setting, body: Expr) -> Set<Seq<char>> {
    Set::new(
        |n: Seq<char>|
            forall|names: Set<Seq<char>>|
                o.globals.subset_of(names) && #[trigger] holds_names(leaving(o, body), body_bindings(body), names)
                    ==> names.contains(n),
    )
}

/// Whether the variable as a whole may leave, and not only a part of it.
pub open spec fn leaves_whole(o: Setting, body: Expr, name: Seq<char>) -> bool {
    ||| o.globals.contains(name)
    ||| exists|i: int| 0 <= i < leaving(o, body).len() && #[trigger] carries(leaving(o, body)[i], name)
    ||| exists|i: int|
        0 <= i < body_bindings(body).len() && leaving_names(o, body).contains(body_bindings(body)[i].name@)
            && #[trigger] carries(Piece::Expr(body_bindings(body)[i].value), name)
}

/// What the values hold that an expression may have, given the first `n` places
/// whose value it may have: the parts of an array or a record; of anything
/// else, all of it.
pub open spec fn contents_upto<'a>(s: Seq<Piece<'a>>, n: int) -> Seq<Piece<'a>>
    decreases n,
{
    if n <= 0 {
        seq![]
    } else {
        contents_upto(s, n - 1) + match s[n - 1] {
            Piece::Expr(e) | Piece::Tail(e) => if allocates(*e) {
                expr_parts(*e)
            } else if own_value(s[n - 1]) {
                seq![s[n - 1]]
            } else {
                seq![]
            },
            Piece::Stmt(_) => seq![],
        }
    }
}

/// What leaves of a value that a variable is given, where something of the
/// variable leaves.
pub open spec fn given_away<'a>(o: Setting, body: Expr, b: Binding<'a>) -> Seq<Piece<'a>> {
    if leaves_whole(o, body, b.name@) {
        seq![Piece::Expr(b.value)]
    } else {
        let s = reached(Walk::TailCalls, Piece::Expr(b.value));
        contents_upto(s, s.len() as int)
    }
}

/// Whether the allocation is in one of the expressions.
pub open spec fn allocated_in(s: Seq<Piece>, id: u32) -> bool {
    exists|i: int| 0 <= i < s.len() && (#[trigger] allocations(s[i])).contains(id)
}

/// Whether the allocation leaves a function of that body: it is in an
/// expression that leaves, or in what leaves of the value of a variable.
pub open spec fn leaves(o: Setting, body: Expr, id: u32) -> bool {
    ||| allocated_in(leaving(o, body), id)
    ||| exists|i: int|
        0 <= i < body_bindings(body).len() && leaving_names(o, body).contains(body_bindings(body)[i].name@)
            && allocated_in(#[trigger] given_away(o, body, body_bindings(body)[i]), id)
}

/// The allocations that leave a function of that body.
pub open spec fn escaping(o: Setting, body: Expr) -> Set<u32> {
    Set::new(|id: u32| leaves(o, body, id))
}

/// The table with `info` for each id of the set.
pub open spec fn marked(t: Map<u32, EscapeInfo>, s: Set<u32>, info: EscapeInfo) -> Map<u32, EscapeInfo> {
    Map::new(
        |id: u32| t.contains_key(id) || s.contains(id),
        |id: u32|
            if s.contains(id) {
                info
            } else {
                t[id]
            },
    )
}

/// The table after a look at a function: its allocations stay in it, but for
/// those that leave it.
pub open spec fn after_function(
    t: Map<u32, EscapeInfo>,
    o: Setting,
    body: Expr,
) -> Map<u32, EscapeInfo> {
    let all = marked(t, allocations(Piece::Expr(&body)), EscapeInfo::NoEscape);
    marked(all, escaping(o, body).intersect(all.dom()), EscapeInfo::Escapes(EscapeKind::Alloc))
}

/// The table after a look at the first `n` functions.
pub open spec fn after_functions(
    o: Setting,
    metas: Seq<(FuncId, FuncMetaRef)>,
    n: int,
) -> Map<u32, EscapeInfo>
    decreases n,
{
    if n <= 0 {
        Map::empty()
    } else {
        after_function(after_functions(o, metas, n - 1), o, *metas[n - 1].1.body)
    }
}

/// What is known of the names of the module.
pub open spec fn setting(m: Module, cg: CallGraph, purity: PurityTable) -> Setting {
    Setting { names: cg.name_to_func@, purity, globals: globals(m) }
}

/// What is known of the module's allocations and lambdas.
pub open spec fn escape_map(m: Module, cg: CallGraph, purity: PurityTable) -> Map<u32, EscapeInfo> {
    with_marks(
        after_functions(setting(m, cg, purity), cg.metas(m), cg.metas(m).len() as int),
        module_marks(m, m.declarations@.len() as int),
    )
}

fn is_allocation(e: &Expr) -> (r: bool)
    ensures
        r == allocates(*e),
{
    matches!(e.kind, ExprKind::ArrayLit { .. } | ExprKind::RecordLit(_) | ExprKind::RecordExtend { .. })
}

/// Marks the allocations of a body as staying in it.
fn mark_allocations(body: &Expr, table: &mut EscapeTable)
    requires
        old(table).wf(),
    ensures
        final(table).wf(),
        final(table).map@ == marked(old(table).map@, allocations(Piece::Expr(body)), EscapeInfo::NoEscape),
{
    let places = reach(Walk::Inner, Piece::Expr(body));
    let ghost start = table.map@;
    let mut i: usize = 0;
    assert(table.map@ =~= marked(start, allocations_upto(places@, 0), EscapeInfo::NoEscape));
    while i < places.len()
        invariant
            i <= places@.len(),
            table.wf(),
            table.map@ == marked(start, allocations_upto(places@, i as int), EscapeInfo::NoEscape),
        decreases places@.len() - i,
    {
        let ghost a = allocations_upto(places@, i as int);
        let ghost b = allocations_upto(places@, i + 1);
        assert forall|id: u32| b.contains(id) <==> a.contains(id) || allocation_at(places@[i as int], id) by {
            if b.contains(id) {
                let k = choose|k: int| 0 <= k < i + 1 && allocation_at(#[trigger] places@[k], id);
                if k < i {
                    assert(allocation_at(places@[k], id));
                }
            }
            if allocation_at(places@[i as int], id) {
                assert(allocation_at(places@[i as int], id));
            }
            if a.contains(id) {
                let k = choose|k: int| 0 <= k < i && allocation_at(#[trigger] places@[k], id);
                assert(allocation_at(places@[k], id));
            }
        }
        if let Piece::Expr(e) | Piece::Tail(e) = places[i] {
            if is_allocation(e) {
                table.put(e.id, EscapeInfo::NoEscape);
            }
        }
        i = i + 1;
        assert(table.map@ =~= marked(start, b, EscapeInfo::NoEscape));
    }
}

/// Marks the allocations in an expression as leaving the function, as far as
/// the table knows them.
fn mark_escaping<'a>(p: Piece<'a>, table: &mut EscapeTable)
    requires
        old(table).wf(),
    ensures
        final(table).wf(),
        final(table).map@ == marked(
            old(table).map@,
            allocations(p).intersect(old(table).map@.dom()),
            EscapeInfo::Escapes(EscapeKind::Alloc),
        ),
{
    let places = reach(Walk::Inner, p);
    let ghost start = table.map@;
    let ghost info = EscapeInfo::Escapes(EscapeKind::Alloc);
    let mut i: usize = 0;
    assert(table.map@ =~= marked(start, allocations_upto(places@, 0).intersect(start.dom()), info));
    while i < places.len()
        invariant
            i <= places@.len(),
            table.wf(),
            info == EscapeInfo::Escapes(EscapeKind::Alloc),
            table.map@ == marked(start, allocations_upto(places@, i as int).intersect(start.dom()), info),
        decreases places@.len() - i,
    {
        let ghost a = allocations_upto(places@, i as int);
        let ghost b = allocations_upto(places@, i + 1);
        assert forall|id: u32| b.contains(id) <==> a.contains(id) || allocation_at(places@[i as int], id) by {
            if b.contains(id) {
                let k = choose|k: int| 0 <= k < i + 1 && allocation_at(#[trigger] places@[k], id);
                if k < i {
                    assert(allocation_at(places@[k], id));
                }
            }
            if allocation_at(places@[i as int], id) {
                assert(allocation_at(places@[i as int], id));
            }
            if a.contains(id) {
                let k = choose|k: int| 0 <= k < i && allocation_at(#[trigger] places@[k], id);
                assert(allocation_at(places@[k], id));
            }
        }
        if let Piece::Expr(e) | Piece::Tail(e) = places[i] {
            if is_allocation(e) && table.lookup(e.id).is_some() {
                table.put(e.id, EscapeInfo::Escapes(EscapeKind::Alloc));
            }
        }
        i = i + 1;
        assert(table.map@ =~= marked(start, b.intersect(start.dom()), info));
    }
}

/// Adds the expressions that leave the function at a place.
fn push_handed_out<'a>(
    out: &mut Vec<Piece<'a>>,
    p: Piece<'a>,
    cg: &CallGraph,
    purity: &PurityTable,
    Ghost(o): Ghost<Setting>,
)
    requires
        o.names == cg.name_to_func@,
        o.purity == *purity,
    ensures
        final(out)@ == old(out)@ + handed_out(o, p),
{
    match p {
        Piece::Expr(e) | Piece::Tail(e) => match &e.kind {
            ExprKind::Call { callee, args } => {
                let keeps: bool = match ident_of(callee) {
                    Some(name) => match cg.name_to_func.get(name.as_str()) {
                        Some(f) => purity.is_pure(FuncId(f)),
                        None => false,
                    },
                    None => false,
                };
                if !keeps {
                    push_exprs(out, args);
                }
            },
            ExprKind::MethodCall { args, .. } | ExprKind::SafeMethodCall { args, .. } => push_exprs(out, args),
            ExprKind::Lambda { .. } | ExprKind::InlineTrait(_) => push_reached(out, Walk::Full, p),
            ExprKind::Propagate(x) => {
                out.push(Piece::Expr(x));
            },
            ExprKind::RecordExtend { base, .. } => {
                out.push(Piece::Expr(base));
            },
            ExprKind::Assign { target, value } | ExprKind::CompoundAssign { target, value } => {
                if ident_of(target).is_none() {
                    out.push(Piece::Expr(value));
                }
            },
            _ => {},
        },
        Piece::Stmt(s) => match &s.kind {
            StmtKind::Return { .. } | StmtKind::Throw { .. } => push_parts(out, p),
            StmtKind::LocalDecl { .. } => push_reached(out, Walk::Full, p),
            StmtKind::FieldAssignment { value, .. } => {
                out.push(Piece::Expr(value));
            },
            StmtKind::Assignment { target, value } | StmtKind::CompoundAssignment { target, value } => {
                if ident_of(target).is_none() {
                    out.push(Piece::Expr(value));
                }
            },
            _ => {},
        },
    }
    assert(out@ =~= old(out)@ + handed_out(o, p));
}

fn has_own_value<'a>(p: Piece<'a>) -> (r: bool)
    ensures
        r == own_value(p),
{
    match p {
        Piece::Expr(e) | Piece::Tail(e) => match &e.kind {
            ExprKind::Block { .. } | ExprKind::If { .. } | ExprKind::Match { .. } => false,
            _ => true,
        },
        Piece::Stmt(_) => false,
    }
}

/// The expressions that leave a function of that body, as its places show.
fn list_leaving<'a>(
    body: &'a Expr,
    places: &Vec<Piece<'a>>,
    cg: &CallGraph,
    purity: &PurityTable,
    Ghost(o): Ghost<Setting>,
) -> (out: Vec<Piece<'a>>)
    requires
        places@ == reached(Walk::Inner, Piece::Expr(body)),
        o.names == cg.name_to_func@,
        o.purity == *purity,
    ensures
        out@ == leaving(o, *body),
{
    let tails = reach(Walk::TailCalls, Piece::Expr(body));
    let mut out: Vec<Piece<'a>> = Vec::new();
    let mut i: usize = 0;
    while i < tails.len()
        invariant
            i <= tails@.len(),
            out@ == tail_values_upto(tails@, i as int),
        decreases tails@.len() - i,
    {
        if has_own_value(tails[i]) {
            out.push(tails[i]);
        }
        i = i + 1;
    }
    let ghost first = out@;
    let mut i: usize = 0;
    assert(out@ =~= first + handed_out_upto(o, places@, 0));
    while i < places.len()
        invariant
            i <= places@.len(),
            o.names == cg.name_to_func@,
            o.purity == *purity,
            out@ == first + handed_out_upto(o, places@, i as int),
        decreases places@.len() - i,
    {
        push_handed_out(&mut out, places[i], cg, purity, Ghost(o));
        i = i + 1;
        assert(out@ =~= first + handed_out_upto(o, places@, i as int));
    }
    out
}

fn find_part_root<'a>(p: Piece<'a>) -> (r: Option<&'a String>)
    ensures
        r == part_root(p),
{
    match p {
        Piece::Expr(e) | Piece::Tail(e) => match &e.kind {
            ExprKind::Index { recv, .. }
            | ExprKind::FieldAccess { recv }
            | ExprKind::SafeAccess { recv }
            | ExprKind::MethodCall { recv, .. }
            | ExprKind::SafeMethodCall { recv, .. } => find_root_var(recv),
            _ => None,
        },
        Piece::Stmt(_) => None,
    }
}

/// Adds the variables that the place carries to `whole`, and those that it
/// draws on to `names`.
fn add_drawn<'a>(p: Piece<'a>, names: &mut NameSet, whole: &mut NameSet)
    ensures
        forall|n: Seq<char>| #[trigger] final(names)@.contains(n) <==> old(names)@.contains(n) || draws_on(p, n),
        forall|n: Seq<char>| #[trigger] final(whole)@.contains(n) <==> old(whole)@.contains(n) || carries(p, n),
{
    let places = reach(Walk::Carried, p);
    let ghost first = names@;
    let ghost first_whole = whole@;
    let mut i: usize = 0;
    while i < places.len()
        invariant
            i <= places@.len(),
            places@ == reached(Walk::Carried, p),
            forall|n: Seq<char>| #[trigger]
                whole@.contains(n) <==> first_whole.contains(n) || exists|k: int|
                    0 <= k < i && name_at(#[trigger] places@[k]) == Some(n),
            forall|n: Seq<char>| #[trigger]
                names@.contains(n) <==> first.contains(n) || (exists|k: int|
                    0 <= k < i && name_at(#[trigger] places@[k]) == Some(n)) || (exists|k: int|
                    0 <= k < i && (part_root(#[trigger] places@[k]) matches Some(m) && m@ == n)),
        decreases places@.len() - i,
    {
        let ghost before = names@;
        let ghost before_whole = whole@;
        if let Piece::Expr(e) | Piece::Tail(e) = places[i] {
            if let Some(name) = ident_of(e) {
                names.insert(name.clone());
                whole.insert(name.clone());
            }
        }
        if let Some(name) = find_part_root(places[i]) {
            names.insert(name.clone());
        }
        i = i + 1;
        assert forall|n: Seq<char>| #[trigger] whole@.contains(n) <==> first_whole.contains(n) || exists|k: int|
            0 <= k < i && name_at(#[trigger] places@[k]) == Some(n) by {
            assert(before_whole.contains(n) <==> first_whole.contains(n) || exists|k: int|
                0 <= k < i - 1 && name_at(#[trigger] places@[k]) == Some(n));
            assert(whole@.contains(n) <==> before_whole.contains(n) || name_at(places@[i - 1]) == Some(n));
        }
        assert forall|n: Seq<char>| #[trigger] names@.contains(n) <==> first.contains(n) || (exists|k: int|
            0 <= k < i && name_at(#[trigger] places@[k]) == Some(n)) || (exists|k: int|
            0 <= k < i && (part_root(#[trigger] places@[k]) matches Some(m) && m@ == n)) by {
            assert(before.contains(n) <==> first.contains(n) || (exists|k: int|
                0 <= k < i - 1 && name_at(#[trigger] places@[k]) == Some(n)) || (exists|k: int|
                0 <= k < i - 1 && (part_root(#[trigger] places@[k]) matches Some(m) && m@ == n)));
            assert(names@.contains(n) <==> before.contains(n) || name_at(places@[i - 1]) == Some(n) || (part_root(
                places@[i - 1],
            ) matches Some(m) && m@ == n));
        }
    }
}

/// What the values hold that an expression may have.
fn push_contents<'a>(out: &mut Vec<Piece<'a>>, e: &'a Expr)
    ensures
        ({
            let s = reached(Walk::TailCalls, Piece::Expr(e));
            final(out)@ == old(out)@ + contents_upto(s, s.len() as int)
        }),
{
    let places = reach(Walk::TailCalls, Piece::Expr(e));
    let mut i: usize = 0;
    assert(out@ =~= old(out)@ + contents_upto(places@, 0));
    while i < places.len()
        invariant
            i <= places@.len(),
            out@ == old(out)@ + contents_upto(places@, i as int),
        decreases places@.len() - i,
    {
        match places[i] {
            Piece::Expr(x) | Piece::Tail(x) => {
                if is_allocation(x) {
                    push_parts(out, places[i]);
                } else if has_own_value(places[i]) {
                    out.push(places[i]);
                }
            },
            Piece::Stmt(_) => {},
        }
        i = i + 1;
        assert(out@ =~= old(out)@ + contents_upto(places@, i as int));
    }
}

/// Follows what leaves to the variables that it draws on, and their values to
/// those that these draw on, until nothing is new. Tells for each binding
/// whether something of its variable leaves, and which variables leave whole.
fn follow_names<'a>(
    body: &'a Expr,
    base: &Vec<Piece<'a>>,
    bs: &Vec<Binding<'a>>,
    module_vars: &NameSet,
    Ghost(o): Ghost<Setting>,
) -> (r: (Vec<bool>, NameSet))
    requires
        base@ == leaving(o, *body),
        bs@ == body_bindings(*body),
        module_vars@ == o.globals,
    ensures
        r.0@.len() == bs@.len(),
        forall|k: int|
            0 <= k < bs@.len() ==> (#[trigger] r.0@[k] <==> leaving_names(o, *body).contains(bs@[k].name@)),
        forall|n: Seq<char>| #[trigger] leaves_whole(o, *body, n) <==> r.1@.contains(n) || o.globals.contains(n),
{
    let ghost first = base@;
    let ghost r = leaving_names(o, *body);
    let mut out: Vec<Piece<'a>> = Vec::new();
    while out.len() < base.len()
        invariant
            out@.len() <= base@.len(),
            out@ =~= base@.take(out@.len() as int),
        decreases base@.len() - out@.len(),
    {
        out.push(base[out.len()]);
    }
    let mut names = NameSet::new();
    let mut whole = NameSet::new();
    let mut followed: Vec<bool> = Vec::new();
    while followed.len() < bs.len()
        invariant
            followed@.len() <= bs@.len(),
            forall|k: int| 0 <= k < followed@.len() ==> !#[trigger] followed@[k],
        decreases bs@.len() - followed@.len(),
    {
        followed.push(false);
    }
    proof {
        lemma_leaving_names(o, *body);
        lemma_all_open(followed@);
        assert(out@.take(first.len() as int) =~= first);
    }
    let mut seen: usize = 0;
    let mut left: usize = bs.len();
    let mut more: bool = true;
    while more
        invariant
            seen <= out@.len(),
            first == leaving(o, *body),
            r == leaving_names(o, *body),
            holds_names(first, bs@, r),
            o.globals.subset_of(r),
            bs@ == body_bindings(*body),
            module_vars@ == o.globals,
            followed@.len() == bs@.len(),
            left == count_open(followed@),
            first.len() <= out@.len(),
            out@.take(first.len() as int) == first,
            names@.subset_of(r),
            forall|i: int, n: Seq<char>| 0 <= i < seen && #[trigger] draws_on(out@[i], n) ==> names@.contains(n),
            forall|n: Seq<char>| #[trigger]
                whole@.contains(n) <==> exists|i: int| 0 <= i < seen && #[trigger] carries(out@[i], n),
            forall|k: int|
                #![trigger followed@[k]]
                0 <= k < bs@.len() && followed@[k] ==> r.contains(bs@[k].name@) && exists|i: int|
                    0 <= i < out@.len() && #[trigger] out@[i] == Piece::Expr(bs@[k].value),
            forall|i: int|
                #![trigger out@[i]]
                first.len() <= i < out@.len() ==> exists|k: int|
                    0 <= k < bs@.len() && r.contains(bs@[k].name@) && Piece::Expr((#[trigger] bs@[k]).value) == out@[i],
            !more ==> seen == out@.len() && forall|k: int|
                0 <= k < bs@.len() && (names@.contains((#[trigger] bs@[k]).name@) || o.globals.contains(bs@[k].name@))
                    ==> followed@[k],
        decreases left, out@.len() - seen, if more { 1int } else { 0int },
    {
        if seen < out.len() {
            let ghost before = names@;
            let ghost before_whole = whole@;
            add_drawn(out[seen], &mut names, &mut whole);
            proof {
                assert forall|n: Seq<char>| names@.contains(n) implies r.contains(n) by {
                    if !before.contains(n) {
                        assert(draws_on(out@[seen as int], n));
                        if seen < first.len() {
                            assert(out@.take(first.len() as int)[seen as int] == first[seen as int]);
                            assert(draws_on(first[seen as int], n));
                        } else {
                            let k = choose|k: int|
                                0 <= k < bs@.len() && r.contains(bs@[k].name@) && Piece::Expr(
                                    (#[trigger] bs@[k]).value,
                                ) == out@[seen as int];
                            assert(draws_on(Piece::Expr(bs@[k].value), n));
                        }
                    }
                }
                assert forall|n: Seq<char>| #[trigger] whole@.contains(n) <==> exists|i: int|
                    0 <= i < seen + 1 && #[trigger] carries(out@[i], n) by {
                    assert(before_whole.contains(n) <==> exists|i: int|
                        0 <= i < seen && #[trigger] carries(out@[i], n));
                    if carries(out@[seen as int], n) {
                        assert(whole@.contains(n));
                    }
                }
            }
            seen = seen + 1;
        } else {
            let mut k: usize = 0;
            let mut found: bool = false;
            while k < bs.len() && !found
                invariant
                    k <= bs@.len(),
                    followed@.len() == bs@.len(),
                    module_vars@ == o.globals,
                    forall|j: int|
                        0 <= j < k && (names@.contains((#[trigger] bs@[j]).name@) || o.globals.contains(bs@[j].name@))
                            ==> followed@[j],
                    found ==> k < bs@.len() && !followed@[k as int] && (names@.contains(bs@[k as int].name@)
                        || o.globals.contains(bs@[k as int].name@)),
                decreases bs@.len() - k, if found { 0int } else { 1int },
            {
                let name = bs[k].name;
                if !followed[k] && (names.contains(name.as_str()) || module_vars.contains(name.as_str())) {
                    found = true;
                } else {
                    k = k + 1;
                }
            }
            if found {
                let ghost before = followed@;
                let ghost list = out@;
                proof {
                    lemma_count_open(before, k as int);
                }
                followed.set(k, true);
                left = left - 1;
                out.push(Piece::Expr(bs[k].value));
                proof {
                    assert(out@.take(first.len() as int) =~= list.take(first.len() as int));
                    assert(out@[out@.len() - 1] == Piece::Expr(bs@[k as int].value));
                    assert(r.contains(bs@[k as int].name@));
                    assert forall|i: int| 0 <= i < seen implies out@[i] == list[i] by {}
                    assert forall|n: Seq<char>| #[trigger] whole@.contains(n) <==> exists|i: int|
                        0 <= i < seen && #[trigger] carries(out@[i], n) by {
                        if exists|i: int| 0 <= i < seen && #[trigger] carries(list[i], n) {
                            let i = choose|i: int| 0 <= i < seen && #[trigger] carries(list[i], n);
                            assert(carries(out@[i], n));
                        }
                        if exists|i: int| 0 <= i < seen && #[trigger] carries(out@[i], n) {
                            let i = choose|i: int| 0 <= i < seen && #[trigger] carries(out@[i], n);
                            assert(carries(list[i], n));
                        }
                    }
                    assert forall|j: int|
                        #![trigger followed@[j]]
                        0 <= j < bs@.len() && followed@[j] implies r.contains(bs@[j].name@) && exists|i: int|
                        0 <= i < out@.len() && #[trigger] out@[i] == Piece::Expr(bs@[j].value) by {
                        if j != k {
                            assert(before[j]);
                            let i = choose|i: int| 0 <= i < list.len() && #[trigger] list[i] == Piece::Expr(bs@[j].value);
                            assert(out@[i] == list[i]);
                        }
                    }
                    assert forall|i: int|
                        #![trigger out@[i]]
                        first.len() <= i < out@.len() implies exists|j: int|
                        0 <= j < bs@.len() && r.contains(bs@[j].name@) && Piece::Expr((#[trigger] bs@[j]).value)
                            == out@[i] by {
                        if i < list.len() {
                            assert(out@[i] == list[i]);
                        } else {
                            assert(Piece::Expr(bs@[k as int].value) == out@[i]);
                        }
                    }
                }
            } else {
                more = false;
            }
        }
    }
    proof {
        let all = names@.union(o.globals);
        assert(holds_names(first, bs@, all)) by {
            assert forall|i: int, n: Seq<char>| 0 <= i < first.len() && #[trigger] draws_on(
                first[i],
                n,
            ) implies all.contains(n) by {
                assert(out@.take(first.len() as int)[i] == first[i]);
                assert(draws_on(out@[i], n));
            }
            assert forall|i: int, n: Seq<char>|
                0 <= i < bs@.len() && all.contains(bs@[i].name@) && #[trigger] draws_on(
                    Piece::Expr(bs@[i].value),
                    n,
                ) implies all.contains(n) by {
                assert(names@.contains(bs@[i].name@) || o.globals.contains(bs@[i].name@));
                assert(followed@[i]);
                let j = choose|j: int| 0 <= j < out@.len() && #[trigger] out@[j] == Piece::Expr(bs@[i].value);
                assert(draws_on(out@[j], n));
            }
        }
        assert(r =~= all);
        assert forall|k: int| 0 <= k < bs@.len() implies (#[trigger] followed@[k] <==> r.contains(bs@[k].name@)) by {
            if r.contains(bs@[k].name@) {
                assert(names@.contains(bs@[k].name@) || o.globals.contains(bs@[k].name@));
            }
        }
        assert forall|n: Seq<char>| #[trigger] leaves_whole(o, *body, n) <==> whole@.contains(n) || o.globals.contains(
            n,
        ) by {
            if whole@.contains(n) {
                let i = choose|i: int| 0 <= i < seen && #[trigger] carries(out@[i], n);
                if i < first.len() {
                    assert(out@.take(first.len() as int)[i] == first[i]);
                    assert(carries(leaving(o, *body)[i], n));
                } else {
                    let k = choose|k: int|
                        0 <= k < bs@.len() && r.contains(bs@[k].name@) && Piece::Expr((#[trigger] bs@[k]).value)
                            == out@[i];
                    assert(carries(Piece::Expr(body_bindings(*body)[k].value), n));
                }
            }
            if exists|i: int| 0 <= i < first.len() && #[trigger] carries(first[i], n) {
                let i = choose|i: int| 0 <= i < first.len() && #[trigger] carries(first[i], n);
                assert(out@.take(first.len() as int)[i] == first[i]);
                assert(carries(out@[i], n));
            }
            if exists|i: int|
                0 <= i < bs@.len() && r.contains(bs@[i].name@) && #[trigger] carries(Piece::Expr(bs@[i].value), n) {
                let i = choose|i: int|
                    0 <= i < bs@.len() && r.contains(bs@[i].name@) && #[trigger] carries(
                        Piece::Expr(bs@[i].value),
                        n,
                    );
                assert(followed@[i]);
                let j = choose|j: int| 0 <= j < out@.len() && #[trigger] out@[j] == Piece::Expr(bs@[i].value);
                assert(carries(out@[j], n));
            }
        }
    }
    (followed, whole)
}

/// Number of entries that are still `false`.
spec fn count_open(s: Seq<bool>) -> nat
    decreases s.len(),
{
    if s.len() == 0 {
        0
    } else if s.last() {
        count_open(s.drop_last())
    } else {
        count_open(s.drop_last()) + 1
    }
}

proof fn lemma_count_open(s: Seq<bool>, k: int)
    requires
        0 <= k < s.len(),
        !s[k],
    ensures
        count_open(s) == count_open(s.update(k, true)) + 1,
    decreases s.len(),
{
    let t = s.update(k, true);
    if k < s.len() - 1 {
        lemma_count_open(s.drop_last(), k);
        assert(t.drop_last() =~= s.drop_last().update(k, true));
    } else {
        assert(t.drop_last() =~= s.drop_last());
    }
}

proof fn lemma_all_open(s: Seq<bool>)
    requires
        forall|k: int| 0 <= k < s.len() ==> !#[trigger] s[k],
    ensures
        count_open(s) == s.len(),
    decreases s.len(),
{
    if s.len() > 0 {
        assert forall|k: int| 0 <= k < s.drop_last().len() implies !#[trigger] s.drop_last()[k] by {
            assert(s.drop_last()[k] == s[k]);
        }
        lemma_all_open(s.drop_last());
    }
}

proof fn lemma_leaving_names(o: Setting, body: Expr)
    ensures
        o.globals.subset_of(leaving_names(o, body)),
        holds_names(leaving(o, body), body_bindings(body), leaving_names(o, body)),
{
    let out = leaving(o, body);
    let bs = body_bindings(body);
    let r = leaving_names(o, body);
    assert forall|i: int, n: Seq<char>| 0 <= i < out.len() && #[trigger] draws_on(out[i], n) implies r.contains(n) by {}
    assert forall|i: int, n: Seq<char>|
        0 <= i < bs.len() && r.contains(bs[i].name@) && #[trigger] draws_on(Piece::Expr(bs[i].value), n) implies r.contains(
        n,
    ) by {
        assert forall|names: Set<Seq<char>>| o.globals.subset_of(names) && #[trigger] holds_names(out, bs, names) implies names.contains(
            n,
        ) by {
            assert(names.contains(bs[i].name@));
        }
    }
}

proof fn lemma_allocated_in(a: Seq<Piece>, b: Seq<Piece>, id: u32)
    ensures
        allocated_in(a + b, id) <==> allocated_in(a, id) || allocated_in(b, id),
{
    if allocated_in(a, id) {
        let i = choose|i: int| 0 <= i < a.len() && (#[trigger] allocations(a[i])).contains(id);
        assert((a + b)[i] == a[i]);
        assert(allocations((a + b)[i]).contains(id));
    }
    if allocated_in(b, id) {
        let i = choose|i: int| 0 <= i < b.len() && (#[trigger] allocations(b[i])).contains(id);
        assert((a + b)[a.len() + i] == b[i]);
        assert(allocations((a + b)[a.len() + i]).contains(id));
    }
    if allocated_in(a + b, id) {
        let i = choose|i: int| 0 <= i < (a + b).len() && (#[trigger] allocations((a + b)[i])).contains(id);
        if i < a.len() {
            assert(allocations(a[i]).contains(id));
        } else {
            assert(allocations(b[i - a.len()]).contains(id));
        }
    }
}

/// The expressions whose allocations leave a function.
fn list_escaping<'a>(
    body: &'a Expr,
    cg: &CallGraph,
    purity: &PurityTable,
    module_vars: &NameSet,
    Ghost(o): Ghost<Setting>,
) -> (out: Vec<Piece<'a>>)
    requires
        o == (Setting { names: cg.name_to_func@, purity: *purity, globals: module_vars@ }),
    ensures
        forall|id: u32| #[trigger] allocated_in(out@, id) <==> leaves(o, *body, id),
{
    let places = reach(Walk::Inner, Piece::Expr(body));
    let bs = list_bindings(&places);
    let mut out = list_leaving(body, &places, cg, purity, Ghost(o));
    let ghost base = out@;
    let ghost r = leaving_names(o, *body);
    let (followed, whole) = follow_names(body, &out, &bs, module_vars, Ghost(o));
    let mut k: usize = 0;
    while k < bs.len()
        invariant
            k <= bs@.len(),
            bs@ == body_bindings(*body),
            r == leaving_names(o, *body),
            module_vars@ == o.globals,
            followed@.len() == bs@.len(),
            forall|j: int| 0 <= j < bs@.len() ==> (#[trigger] followed@[j] <==> r.contains(bs@[j].name@)),
            forall|n: Seq<char>| #[trigger] leaves_whole(o, *body, n) <==> whole@.contains(n) || o.globals.contains(n),
            forall|id: u32| #[trigger]
                allocated_in(out@, id) <==> allocated_in(base, id) || exists|j: int|
                    0 <= j < k && r.contains(bs@[j].name@) && allocated_in(
                        #[trigger] given_away(o, *body, bs@[j]),
                        id,
                    ),
        decreases bs@.len() - k,
    {
        let ghost before = out@;
        if followed[k] {
            let b = bs[k];
            if whole.contains(b.name.as_str()) || module_vars.contains(b.name.as_str()) {
                assert(leaves_whole(o, *body, b.name@));
                out.push(Piece::Expr(b.value));
                assert(out@ =~= before + given_away(o, *body, b));
            } else {
                assert(!leaves_whole(o, *body, b.name@));
                push_contents(&mut out, b.value);
                assert(out@ =~= before + given_away(o, *body, b));
            }
        }
        k = k + 1;
        assert forall|id: u32| #[trigger] allocated_in(out@, id) <==> allocated_in(base, id) || exists|j: int|
            0 <= j < k && r.contains(bs@[j].name@) && allocated_in(
                #[trigger] given_away(o, *body, bs@[j]),
                id,
            ) by {
            let g = given_away(o, *body, bs@[k - 1]);
            lemma_allocated_in(before, g, id);
            assert(allocated_in(before, id) <==> allocated_in(base, id) || exists|j: int|
                0 <= j < k - 1 && r.contains(bs@[j].name@) && allocated_in(
                    #[trigger] given_away(o, *body, bs@[j]),
                    id,
                ));
            assert(followed@[k - 1] <==> r.contains(bs@[k - 1].name@));
        }
    }
    out
}

/// Marks the allocations that leave a function.
fn scan_escapes(
    body: &Expr,
    cg: &CallGraph,
    purity: &PurityTable,
    module_vars: &NameSet,
    table: &mut EscapeTable,
    Ghost(o): Ghost<Setting>,
)
    requires
        old(table).wf(),
        o == (Setting { names: cg.name_to_func@, purity: *purity, globals: module_vars@ }),
    ensures
        final(table).wf(),
        final(table).map@ == marked(
            old(table).map@,
            escaping(o, *body).intersect(old(table).map@.dom()),
            EscapeInfo::Escapes(EscapeKind::Alloc),
        ),
{
    let out = list_escaping(body, cg, purity, module_vars, Ghost(o));
    let ghost start = table.map@;
    let ghost info = EscapeInfo::Escapes(EscapeKind::Alloc);
    let mut k: usize = 0;
    assert(table.map@ =~= marked(start, allocations_in(out@, 0).intersect(start.dom()), info));
    while k < out.len()
        invariant
            k <= out@.len(),
            table.wf(),
            info == EscapeInfo::Escapes(EscapeKind::Alloc),
            table.map@ == marked(start, allocations_in(out@, k as int).intersect(start.dom()), info),
        decreases out@.len() - k,
    {
        let ghost c = allocations_in(out@, k as int);
        let ghost d = allocations_in(out@, k + 1);
        assert forall|id: u32| d.contains(id) <==> c.contains(id) || allocations(out@[k as int]).contains(id) by {
            if d.contains(id) {
                let j = choose|j: int| 0 <= j < k + 1 && (#[trigger] allocations(out@[j])).contains(id);
                if j < k {
                    assert(allocations(out@[j]).contains(id));
                }
            }
            if c.contains(id) {
                let j = choose|j: int| 0 <= j < k && (#[trigger] allocations(out@[j])).contains(id);
                assert(allocations(out@[j]).contains(id));
            }
        }
        let ghost now = table.map@;
        assert(now.dom() =~= start.dom());
        mark_escaping(out[k], table);
        k = k + 1;
        assert(table.map@ =~= marked(start, d.intersect(start.dom()), info));
    }
    assert(table.map@ =~= marked(start, escaping(o, *body).intersect(start.dom()), info)) by {
        assert forall|id: u32| allocations_in(out@, out@.len() as int).contains(id) <==> escaping(o, *body).contains(
            id,
        ) by {
            assert(allocated_in(out@, id) <==> leaves(o, *body, id));
        }
        assert(allocations_in(out@, out@.len() as int) =~= escaping(o, *body));
    }
}

/// What is known of the module's allocations and lambdas.
pub fn analyze_escape(module: &Module, cg: &CallGraph, purity: &PurityTable) -> (table: EscapeTable)
    ensures
        table.wf(),
        table.map@ == escape_map(*module, *cg, *purity),
{
    let mut table = EscapeTable::new();
    let module_vars = collect_globals(module);
    let ghost o = setting(*module, *cg, *purity);
    let metas = cg.iter_funcs(module);
    let mut i: usize = 0;
    assert(table.map@ =~= Map::<u32, EscapeInfo>::empty());
    while i < metas.len()
        invariant
            i <= metas@.len(),
            table.wf(),
            o == (Setting { names: cg.name_to_func@, purity: *purity, globals: module_vars@ }),
            table.map@ == after_functions(o, metas@, i as int),
        decreases metas@.len() - i,
    {
        let (_func, meta) = metas[i];
        mark_allocations(meta.body, &mut table);
        scan_escapes(meta.body, cg, purity, &module_vars, &mut table, Ghost(o));
        i = i + 1;
    }
    analyze_lambda_escape(module, &mut table);
    table
}

proof fn lemma_marked(t: Map<u32, EscapeInfo>, o: Setting, body: Expr, id: u32)
    requires
        allocations(Piece::Expr(&body)).contains(id),
        leaves(o, body, id),
    ensures
        after_function(t, o, body)[id] == EscapeInfo::Escapes(EscapeKind::Alloc),
{
    assert(escaping(o, body).contains(id));
}

/// An allocation in the value of a body, as in any of the expressions whose
/// value the body may have, leaves the function.
pub proof fn law_values_of_a_body_escape(t: Map<u32, EscapeInfo>, o: Setting, body: Expr, value: Piece, id: u32)
    requires
        reached(Walk::TailCalls, Piece::Expr(&body)).contains(value),
        own_value(value),
        allocations(value).contains(id),
        allocations(Piece::Expr(&body)).contains(id),
    ensures
        after_function(t, o, body)[id] == EscapeInfo::Escapes(EscapeKind::Alloc),
{
    let s = reached(Walk::TailCalls, Piece::Expr(&body));
    assert(s.take(s.len() as int) =~= s);
    lemma_tail_value(s, s.len() as int, value);
    let out = leaving(o, body);
    let i = choose|i: int| 0 <= i < tail_values(body).len() && tail_values(body)[i] == value;
    assert(out[i] == value);
    assert(allocations(out[i]).contains(id));
    lemma_marked(t, o, body, id);
}

proof fn lemma_tail_value(s: Seq<Piece>, n: int, x: Piece)
    requires
        0 <= n <= s.len(),
        s.take(n).contains(x),
        own_value(x),
    ensures
        tail_values_upto(s, n).contains(x),
    decreases n,
{
    let i = choose|i: int| 0 <= i < n && s.take(n)[i] == x;
    if i < n - 1 {
        assert(s.take(n - 1)[i] == x);
        lemma_tail_value(s, n - 1, x);
        let r = tail_values_upto(s, n - 1);
        let k = choose|k: int| 0 <= k < r.len() && r[k] == x;
        assert(tail_values_upto(s, n)[k] == x);
    } else {
        assert(tail_values_upto(s, n).last() == x);
    }
}

/// An allocation in what a body returns, throws, stores or hands to another
/// function leaves the function.
pub proof fn law_handed_out_allocations_escape(
    t: Map<u32, EscapeInfo>,
    o: Setting,
    body: Expr,
    p: Piece,
    part: Piece,
    id: u32,
)
    requires
        reached(Walk::Inner, Piece::Expr(&body)).contains(p),
        handed_out(o, p).contains(part),
        allocations(part).contains(id),
        allocations(Piece::Expr(&body)).contains(id),
    ensures
        after_function(t, o, body)[id] == EscapeInfo::Escapes(EscapeKind::Alloc),
{
    let s = reached(Walk::Inner, Piece::Expr(&body));
    let i = choose|i: int| 0 <= i < s.len() && s[i] == p;
    lemma_handed_out(o, s, s.len() as int, i, part);
    let h = handed_out_upto(o, s, s.len() as int);
    let k = choose|k: int| 0 <= k < h.len() && h[k] == part;
    let out = leaving(o, body);
    assert(out[tail_values(body).len() + k] == part);
    assert(allocations(out[tail_values(body).len() + k]).contains(id));
    lemma_marked(t, o, body, id);
}

proof fn lemma_handed_out(o: Setting, s: Seq<Piece>, n: int, i: int, part: Piece)
    requires
        0 <= i < n <= s.len(),
        handed_out(o, s[i]).contains(part),
    ensures
        handed_out_upto(o, s, n).contains(part),
    decreases n,
{
    let a = handed_out_upto(o, s, n - 1);
    let b = handed_out(o, s[n - 1]);
    if i < n - 1 {
        lemma_handed_out(o, s, n - 1, i, part);
        let k = choose|k: int| 0 <= k < a.len() && a[k] == part;
        assert((a + b)[k] == part);
    } else {
        let k = choose|k: int| 0 <= k < b.len() && b[k] == part;
        assert((a + b)[a.len() + k] == part);
    }
}

/// What a variable is given leaves the function where the variable does: it is
/// one of the module, or what leaves carries it.
pub proof fn law_values_of_leaving_variables_escape(
    t: Map<u32, EscapeInfo>,
    o: Setting,
    body: Expr,
    b: Binding,
    id: u32,
)
    requires
        body_bindings(body).contains(b),
        o.globals.contains(b.name@) || exists|i: int|
            0 <= i < leaving(o, body).len() && #[trigger] carries(leaving(o, body)[i], b.name@),
        allocations(Piece::Expr(b.value)).contains(id),
        allocations(Piece::Expr(&body)).contains(id),
    ensures
        after_function(t, o, body)[id] == EscapeInfo::Escapes(EscapeKind::Alloc),
{
    lemma_leaving_names(o, body);
    let bs = body_bindings(body);
    let k = choose|k: int| 0 <= k < bs.len() && bs[k] == b;
    if !o.globals.contains(b.name@) {
        let i = choose|i: int| 0 <= i < leaving(o, body).len() && #[trigger] carries(leaving(o, body)[i], b.name@);
        assert(draws_on(leaving(o, body)[i], b.name@));
    }
    assert(leaves_whole(o, body, b.name@));
    let g = given_away(o, body, bs[k]);
    assert(allocations(g[0]).contains(id));
    assert(allocated_in(g, id));
    lemma_marked(t, o, body, id);
}

/// An allocation that stays in its function is in nothing that leaves, and no
/// variable that leaves holds it.
pub proof fn law_what_stays_does_not_leave(t: Map<u32, EscapeInfo>, o: Setting, body: Expr, id: u32)
    requires
        allocations(Piece::Expr(&body)).contains(id),
        after_function(t, o, body)[id] == EscapeInfo::NoEscape,
    ensures
        !allocated_in(leaving(o, body), id),
        forall|i: int|
            0 <= i < body_bindings(body).len() && leaving_names(o, body).contains(body_bindings(body)[i].name@)
                ==> !allocated_in(#[trigger] given_away(o, body, body_bindings(body)[i]), id),
{
    if leaves(o, body, id) {
        lemma_marked(t, o, body, id);
    }
}

/// An allocation in a part that a place hands out is marked as leaving.
proof fn lemma_part_escapes(t: Map<u32, EscapeInfo>, o: Setting, body: Expr, p: Piece, part: Piece, e: Expr)
    requires
        reached(Walk::Inner, Piece::Expr(&body)).contains(p),
        handed_out(o, p).contains(part),
        steps(Walk::Inner, p).contains(part),
        reached(Walk::Inner, part).contains(Piece::Expr(&e)),
        e.kind is ArrayLit || e.kind is RecordLit || e.kind is RecordExtend,
    ensures
        after_function(t, o, body).contains_key(e.id.0),
        after_function(t, o, body)[e.id.0] == EscapeInfo::Escapes(EscapeKind::Alloc),
{
    let s = steps(Walk::Inner, p);
    let k = choose|k: int| 0 <= k < s.len() && s[k] == part;
    law_reached(Walk::Inner, p, Piece::Expr(&e));
    assert(reached(Walk::Inner, s[k]).contains(Piece::Expr(&e)));
    law_reached_is_transitive(Walk::Inner, Piece::Expr(&body), p, Piece::Expr(&e));
    lemma_allocation_reached(part, e);
    lemma_allocation_reached(Piece::Expr(&body), e);
    law_handed_out_allocations_escape(t, o, body, p, part, e.id.0);
}

proof fn lemma_allocation_reached(p: Piece, e: Expr)
    requires
        reached(Walk::Inner, p).contains(Piece::Expr(&e)),
        e.kind is ArrayLit || e.kind is RecordLit || e.kind is RecordExtend,
    ensures
        allocations(p).contains(e.id.0),
{
    let s = reached(Walk::Inner, p);
    let i = choose|i: int| 0 <= i < s.len() && s[i] == Piece::Expr(&e);
    assert(allocation_at(s[i], e.id.0));
}

/// An array or a record in what a statement stores in a field, returns or throws
/// leaves the function.
pub proof fn law_stored_and_returned_allocations_escape(
    t: Map<u32, EscapeInfo>,
    o: Setting,
    body: Expr,
    s: Stmt,
    value: Expr,
    e: Expr,
)
    requires
        reached(Walk::Inner, Piece::Expr(&body)).contains(Piece::Stmt(&s)),
        match s.kind {
            StmtKind::FieldAssignment { value: v, .. } => v == value,
            StmtKind::Return { value: v } => v == Some(value),
            StmtKind::Throw { expr: v } => v == value,
            StmtKind::Assignment { target, value: v } | StmtKind::CompoundAssignment { target, value: v } => v == value
                && !(target.kind is Ident),
            _ => false,
        },
        reached(Walk::Inner, Piece::Expr(&value)).contains(Piece::Expr(&e)),
        e.kind is ArrayLit || e.kind is RecordLit || e.kind is RecordExtend,
    ensures
        after_function(t, o, body).contains_key(e.id.0),
        after_function(t, o, body)[e.id.0] == EscapeInfo::Escapes(EscapeKind::Alloc),
{
    let p = Piece::Stmt(&s);
    let part = Piece::Expr(&value);
    let h = handed_out(o, p);
    let q = steps(Walk::Inner, p);
    assert(h[0] == part);
    assert(q[q.len() - 1] == part);
    lemma_part_escapes(t, o, body, p, part, e);
}

/// An array or a record in an argument of a method, or of a call of anything
/// but a function that is known by its name to be pure, leaves the function.
pub proof fn law_arguments_escape(t: Map<u32, EscapeInfo>, o: Setting, body: Expr, c: Expr, j: int, e: Expr)
    requires
        reached(Walk::Inner, Piece::Expr(&body)).contains(Piece::Expr(&c)),
        match c.kind {
            ExprKind::MethodCall { args, .. } | ExprKind::SafeMethodCall { args, .. } => 0 <= j < args@.len()
                && reached(Walk::Inner, Piece::Expr(&args@[j])).contains(Piece::Expr(&e)),
            ExprKind::Call { callee, args } => 0 <= j < args@.len() && reached(
                Walk::Inner,
                Piece::Expr(&args@[j]),
            ).contains(Piece::Expr(&e)) && !(callee.kind matches ExprKind::Ident(name) && o.names.contains_key(name@)
                && o.purity.of(FuncId(o.names[name@])) == Some(Purity::Pure)),
            _ => false,
        },
        e.kind is ArrayLit || e.kind is RecordLit || e.kind is RecordExtend,
    ensures
        after_function(t, o, body).contains_key(e.id.0),
        after_function(t, o, body)[e.id.0] == EscapeInfo::Escapes(EscapeKind::Alloc),
{
    let p = Piece::Expr(&c);
    let args = match c.kind {
        ExprKind::MethodCall { args, .. } | ExprKind::SafeMethodCall { args, .. } => args@,
        ExprKind::Call { args, .. } => args@,
        _ => Seq::<Expr>::empty(),
    };
    let part = Piece::Expr(&args[j]);
    assert(expr_pieces(args)[j] == part);
    assert(handed_out(o, p)[j] == part);
    assert(steps(Walk::Inner, p)[1 + j] == part);
    lemma_part_escapes(t, o, body, p, part, e);
}

/// An array or a record in the value that an expression assigns to a part of
/// something, passes up, or takes for the base of a record leaves the function.
pub proof fn law_assigned_parts_escape(t: Map<u32, EscapeInfo>, o: Setting, body: Expr, c: Expr, value: Expr, e: Expr)
    requires
        reached(Walk::Inner, Piece::Expr(&body)).contains(Piece::Expr(&c)),
        match c.kind {
            ExprKind::Assign { target, value: v } | ExprKind::CompoundAssign { target, value: v } => *v == value && !(
            target.kind is Ident),
            ExprKind::Propagate(v) => *v == value,
            ExprKind::RecordExtend { base, .. } => *base == value,
            _ => false,
        },
        reached(Walk::Inner, Piece::Expr(&value)).contains(Piece::Expr(&e)),
        e.kind is ArrayLit || e.kind is RecordLit || e.kind is RecordExtend,
    ensures
        after_function(t, o, body).contains_key(e.id.0),
        after_function(t, o, body)[e.id.0] == EscapeInfo::Escapes(EscapeKind::Alloc),
{
    let p = Piece::Expr(&c);
    let part = Piece::Expr(&value);
    let h = handed_out(o, p);
    let q = steps(Walk::Inner, p);
    assert(h[0] == part);
    if c.kind is RecordExtend || c.kind is Propagate {
        assert(q[0] == part);
    } else {
        assert(q[1] == part);
    }
    lemma_part_escapes(t, o, body, p, part, e);
}

/// An array or a record that is the value of a body, as it stands or as that of
/// a block, a branch or an arm in its place, leaves the function.
pub proof fn law_the_value_of_a_body_escapes(t: Map<u32, EscapeInfo>, o: Setting, body: Expr, e: Expr)
    requires
        reached(Walk::TailCalls, Piece::Expr(&body)).contains(Piece::Expr(&e)),
        reached(Walk::Inner, Piece::Expr(&body)).contains(Piece::Expr(&e)),
        e.kind is ArrayLit || e.kind is RecordLit || e.kind is RecordExtend,
    ensures
        after_function(t, o, body).contains_key(e.id.0),
        after_function(t, o, body)[e.id.0] == EscapeInfo::Escapes(EscapeKind::Alloc),
{
    law_reached(Walk::Inner, Piece::Expr(&e), Piece::Expr(&e));
    lemma_allocation_reached(Piece::Expr(&e), e);
    lemma_allocation_reached(Piece::Expr(&body), e);
    law_values_of_a_body_escape(t, o, body, Piece::Expr(&e), e.id.0);
}

/// Every array and record that a body makes, functions inside it left aside, is
/// in the table; one that was not there before and does not leave stays.
pub proof fn law_allocations_are_known(t: Map<u32, EscapeInfo>, o: Setting, body: Expr, e: Expr)
    requires
        reached(Walk::Inner, Piece::Expr(&body)).contains(Piece::Expr(&e)),
        e.kind is ArrayLit || e.kind is RecordLit || e.kind is RecordExtend,
    ensures
        after_function(t, o, body).contains_key(e.id.0),
        after_function(t, o, body)[e.id.0] == EscapeInfo::NoEscape || after_function(t, o, body)[e.id.0]
            == EscapeInfo::Escapes(EscapeKind::Alloc),
{
    lemma_allocation_reached(Piece::Expr(&body), e);
}

/// Where no later function makes an allocation of the same number and no lambda
/// has it, the table of the module says of an allocation what the look at its
/// function said.
pub proof fn law_what_is_known_of_an_allocation_stays(
    m: Module,
    cg: CallGraph,
    purity: PurityTable,
    k: int,
    id: u32,
)
    requires
        0 <= k < cg.metas(m).len(),
        forall|j: int|
            k < j < cg.metas(m).len() ==> !allocations(Piece::Expr((#[trigger] cg.metas(m)[j]).1.body)).contains(id)
                && !leaves(setting(m, cg, purity), *cg.metas(m)[j].1.body, id),
        forall|j: int|
            0 <= j < module_marks(m, m.declarations@.len() as int).len() ==> (#[trigger] module_marks(
                m,
                m.declarations@.len() as int,
            )[j]).lambda != id,
    ensures
        ({
            let o = setting(m, cg, purity);
            let at = after_function(after_functions(o, cg.metas(m), k), o, *cg.metas(m)[k].1.body);
            &&& escape_map(m, cg, purity).contains_key(id) == at.contains_key(id)
            &&& at.contains_key(id) ==> escape_map(m, cg, purity)[id] == at[id]
        }),
{
    let o = setting(m, cg, purity);
    let n = cg.metas(m).len() as int;
    lemma_later_functions(o, cg.metas(m), k, n, id);
    lemma_other_marks(after_functions(o, cg.metas(m), n), module_marks(m, m.declarations@.len() as int), id);
}

proof fn lemma_later_functions(o: Setting, metas: Seq<(FuncId, FuncMetaRef)>, k: int, n: int, id: u32)
    requires
        0 <= k < n <= metas.len(),
        forall|j: int|
            k < j < n ==> !allocations(Piece::Expr((#[trigger] metas[j]).1.body)).contains(id) && !leaves(
                o,
                *metas[j].1.body,
                id,
            ),
    ensures
        after_functions(o, metas, n).contains_key(id) == after_functions(o, metas, k + 1).contains_key(id),
        after_functions(o, metas, n)[id] == after_functions(o, metas, k + 1)[id] || !after_functions(
            o,
            metas,
            n,
        ).contains_key(id),
    decreases n,
{
    if n > k + 1 {
        lemma_later_functions(o, metas, k, n - 1, id);
        assert(!leaves(o, *metas[n - 1].1.body, id));
        assert(!escaping(o, *metas[n - 1].1.body).contains(id));
    }
}

proof fn lemma_other_marks(t: Map<u32, EscapeInfo>, ms: Seq<Mark>, id: u32)
    requires
        forall|j: int| 0 <= j < ms.len() ==> (#[trigger] ms[j]).lambda != id,
    ensures
        with_marks(t, ms).contains_key(id) == t.contains_key(id),
        t.contains_key(id) ==> with_marks(t, ms)[id] == t[id],
    decreases ms.len(),
{
    if ms.len() > 0 {
        assert forall|j: int| 0 <= j < ms.drop_last().len() implies (#[trigger] ms.drop_last()[j]).lambda != id by {
            assert(ms[j] == ms.drop_last()[j]);
        }
        lemma_other_marks(t, ms.drop_last(), id);
        assert(ms[ms.len() - 1] == ms.last());
    }
}

proof fn lemma_handed_out_leaves(o: Setting, body: Expr, p: Piece, q: Piece) -> (i: int)
    requires
        reached(Walk::Inner, Piece::Expr(&body)).contains(p),
        handed_out(o, p).contains(q),
    ensures
        0 <= i < leaving(o, body).len(),
        leaving(o, body)[i] == q,
{
    let s = reached(Walk::Inner, Piece::Expr(&body));
    let k = choose|k: int| 0 <= k < s.len() && s[k] == p;
    let j = lemma_handed_out_at(o, s, s.len() as int, k, q);
    let a = tail_values(body);
    assert(leaving(o, body)[a.len() + j] == q);
    a.len() + j
}

proof fn lemma_handed_out_at(o: Setting, s: Seq<Piece>, n: int, k: int, q: Piece) -> (i: int)
    requires
        0 <= k < n <= s.len(),
        handed_out(o, s[k]).contains(q),
    ensures
        0 <= i < handed_out_upto(o, s, n).len(),
        handed_out_upto(o, s, n)[i] == q,
    decreases n,
{
    let a = handed_out_upto(o, s, n - 1);
    let b = handed_out(o, s[n - 1]);
    if k < n - 1 {
        let i = lemma_handed_out_at(o, s, n - 1, k, q);
        assert((a + b)[i] == q);
        i
    } else {
        let j = choose|j: int| 0 <= j < b.len() && b[j] == q;
        assert((a + b)[a.len() + j] == q);
        a.len() + j
    }
}

/// The value that a declaration or an assignment gives to the variable.
proof fn lemma_statement_binds(body: Expr, s: Stmt, name: String, value: Expr)
    requires
        reached(Walk::Inner, Piece::Expr(&body)).contains(Piece::Stmt(&s)),
        match s.kind {
            StmtKind::ValDecl { name: n, value: v } | StmtKind::VarDecl { name: n, value: v } => n == name && v == value,
            StmtKind::Assignment { target, value: v } => target.kind == ExprKind::Ident(name) && v == value,
            _ => false,
        },
    ensures
        body_bindings(body).contains(Binding { name: &name, value: &value }),
{
    let all = reached(Walk::Inner, Piece::Expr(&body));
    let i = choose|i: int| 0 <= i < all.len() && all[i] == Piece::Stmt(&s);
    let b = Binding { name: &name, value: &value };
    crate::ast::binds::law_places_bind_variables(s, arbitrary());
    if let StmtKind::Assignment { target, .. } = s.kind {
        crate::ast::binds::law_stores_go_to_the_root(target);
    }
    assert(bindings_at(all[i]).contains(b));
    crate::ast::binds::law_lists_bind_what_places_bind(all, all.len() as int, b);
}

proof fn lemma_bound_allocation_escapes(
    t: Map<u32, EscapeInfo>,
    o: Setting,
    body: Expr,
    s: Stmt,
    name: String,
    value: Expr,
    e: Expr,
)
    requires
        reached(Walk::Inner, Piece::Expr(&body)).contains(Piece::Stmt(&s)),
        match s.kind {
            StmtKind::ValDecl { name: n, value: v } | StmtKind::VarDecl { name: n, value: v } => n == name && v == value,
            StmtKind::Assignment { target, value: v } => target.kind == ExprKind::Ident(name) && v == value,
            _ => false,
        },
        reached(Walk::Inner, Piece::Expr(&value)).contains(Piece::Expr(&e)),
        e.kind is ArrayLit || e.kind is RecordLit || e.kind is RecordExtend,
        o.globals.contains(name@) || exists|i: int|
            0 <= i < leaving(o, body).len() && #[trigger] carries(leaving(o, body)[i], name@),
    ensures
        after_function(t, o, body).contains_key(e.id.0),
        after_function(t, o, body)[e.id.0] == EscapeInfo::Escapes(EscapeKind::Alloc),
{
    let p = Piece::Stmt(&s);
    lemma_statement_binds(body, s, name, value);
    crate::ast::walk::law_walks_enter_expressions_of_statements(Walk::Inner, s, value);
    crate::ast::walk::law_reached_is_transitive(Walk::Inner, Piece::Expr(&body), p, Piece::Expr(&value));
    crate::ast::walk::law_reached_is_transitive(
        Walk::Inner,
        Piece::Expr(&body),
        Piece::Expr(&value),
        Piece::Expr(&e),
    );
    lemma_allocation_reached(Piece::Expr(&value), e);
    lemma_allocation_reached(Piece::Expr(&body), e);
    law_values_of_leaving_variables_escape(t, o, body, Binding { name: &name, value: &value }, e.id.0);
}

/// An array or a record that a variable is given leaves the function where what
/// it returns or throws may be the variable, or hold it.
pub proof fn law_returned_variables_take_their_values_along(
    t: Map<u32, EscapeInfo>,
    o: Setting,
    body: Expr,
    s: Stmt,
    name: String,
    value: Expr,
    e: Expr,
    r: Stmt,
    v: Expr,
    x: Expr,
)
    requires
        reached(Walk::Inner, Piece::Expr(&body)).contains(Piece::Stmt(&s)),
        match s.kind {
            StmtKind::ValDecl { name: n, value: v } | StmtKind::VarDecl { name: n, value: v } => n == name && v == value,
            StmtKind::Assignment { target, value: v } => target.kind == ExprKind::Ident(name) && v == value,
            _ => false,
        },
        reached(Walk::Inner, Piece::Expr(&value)).contains(Piece::Expr(&e)),
        e.kind is ArrayLit || e.kind is RecordLit || e.kind is RecordExtend,
        reached(Walk::Inner, Piece::Expr(&body)).contains(Piece::Stmt(&r)),
        r.kind == (StmtKind::Return { value: Some(v) }) || r.kind == (StmtKind::Throw { expr: v }),
        reached(Walk::Carried, Piece::Expr(&v)).contains(Piece::Expr(&x)),
        x.kind == ExprKind::Ident(name),
    ensures
        after_function(t, o, body).contains_key(e.id.0),
        after_function(t, o, body)[e.id.0] == EscapeInfo::Escapes(EscapeKind::Alloc),
{
    let q = Piece::Expr(&v);
    assert(handed_out(o, Piece::Stmt(&r))[0] == q);
    let i = lemma_handed_out_leaves(o, body, Piece::Stmt(&r), q);
    let c = reached(Walk::Carried, q);
    let k = choose|k: int| 0 <= k < c.len() && c[k] == Piece::Expr(&x);
    assert(name_at(c[k]) == Some(name@));
    assert(carries(leaving(o, body)[i], name@));
    lemma_bound_allocation_escapes(t, o, body, s, name, value, e);
}

/// So does one that is given to a variable of the module.
pub proof fn law_module_variables_keep_their_values(
    t: Map<u32, EscapeInfo>,
    o: Setting,
    body: Expr,
    s: Stmt,
    target: Expr,
    name: String,
    value: Expr,
    e: Expr,
)
    requires
        reached(Walk::Inner, Piece::Expr(&body)).contains(Piece::Stmt(&s)),
        s.kind == (StmtKind::Assignment { target, value }),
        target.kind == ExprKind::Ident(name),
        o.globals.contains(name@),
        reached(Walk::Inner, Piece::Expr(&value)).contains(Piece::Expr(&e)),
        e.kind is ArrayLit || e.kind is RecordLit || e.kind is RecordExtend,
    ensures
        after_function(t, o, body).contains_key(e.id.0),
        after_function(t, o, body)[e.id.0] == EscapeInfo::Escapes(EscapeKind::Alloc),
{
    lemma_bound_allocation_escapes(t, o, body, s, name, value, e);
}

/// So does one that is given to a variable which a lambda, an inline trait or a
/// local function names.
pub proof fn law_captured_variables_take_their_values_along(
    t: Map<u32, EscapeInfo>,
    o: Setting,
    body: Expr,
    s: Stmt,
    name: String,
    value: Expr,
    e: Expr,
    p: Piece,
    x: Expr,
)
    requires
        reached(Walk::Inner, Piece::Expr(&body)).contains(Piece::Stmt(&s)),
        match s.kind {
            StmtKind::ValDecl { name: n, value: v } | StmtKind::VarDecl { name: n, value: v } => n == name && v == value,
            StmtKind::Assignment { target, value: v } => target.kind == ExprKind::Ident(name) && v == value,
            _ => false,
        },
        reached(Walk::Inner, Piece::Expr(&value)).contains(Piece::Expr(&e)),
        e.kind is ArrayLit || e.kind is RecordLit || e.kind is RecordExtend,
        reached(Walk::Inner, Piece::Expr(&body)).contains(p),
        match p {
            Piece::Expr(c) => c.kind is Lambda || c.kind is InlineTrait,
            Piece::Stmt(c) => c.kind is LocalDecl,
            Piece::Tail(_) => false,
        },
        reached(Walk::Full, p).contains(Piece::Expr(&x)),
        x.kind == ExprKind::Ident(name),
    ensures
        after_function(t, o, body).contains_key(e.id.0),
        after_function(t, o, body)[e.id.0] == EscapeInfo::Escapes(EscapeKind::Alloc),
{
    let q = Piece::Expr(&x);
    let i = lemma_handed_out_leaves(o, body, p, q);
    law_reached(Walk::Carried, q, q);
    let c = reached(Walk::Carried, q);
    let k = choose|k: int| 0 <= k < c.len() && c[k] == q;
    assert(name_at(c[k]) == Some(name@));
    assert(carries(leaving(o, body)[i], name@));
    lemma_bound_allocation_escapes(t, o, body, s, name, value, e);
}

} // verus!
