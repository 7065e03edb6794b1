//! Matches that leave out a constructor, and arms that are never taken.

use super::call_graph::CallGraph;
use super::functions::FuncMetaRef;
use super::tables::FuncId;
use crate::ast::sema::{SemaResult, TypeDef, TypeDefKind};
use crate::ast::tree::{Expr, ExprId, ExprKind, MatchArm, Module, Pattern};
use crate::ast::walk::{reach, reached, Piece, Walk};
use crate::fx::NameSet;
use vstd::prelude::*;

verus! {

/// A match that leaves out constructors of the type that it looks at.
#[derive(Debug)]
pub struct MissingArms {
    pub match_expr: ExprId,
    pub type_of: String,
    pub missing: Vec<String>,
}

/// An arm that is never taken.
#[derive(Debug, Clone, Copy, PartialEq, Eq, Structural)]
pub struct DeadArm {
    pub match_expr: ExprId,
    pub arm: usize,
}

#[derive(Debug)]
pub struct MatchReport {
    pub non_exhaustive: Vec<MissingArms>,
    pub unreachable_arms: Vec<DeadArm>,
}

// ---- arms that are never taken ---------------------------------------------

/// Whether the arm takes whatever comes to it.
pub open spec fn takes_all(arm: MatchArm) -> bool {
    arm.pattern is Wildcard && arm.guard is None
}

/// Whether one of the first `k` arms takes whatever comes to it.
pub open spec fn taken_before(arms: Seq<MatchArm>, k: int) -> bool {
    exists|i: int| 0 <= i < k && takes_all(#[trigger] arms[i])
}

/// The arms among the first `k` that follow one that takes everything.
pub open spec fn dead_arms(id: ExprId, arms: Seq<MatchArm>, k: int) -> Seq<DeadArm>
    decreases k,
{
    if k <= 0 {
        seq![]
    } else if taken_before(arms, k - 1) {
        dead_arms(id, arms, k - 1).push(DeadArm { match_expr: id, arm: (k - 1) as usize })
    } else {
        dead_arms(id, arms, k - 1)
    }
}

// ---- constructors that are left out ----------------------------------------

/// Whether a pattern, or one inside it, may take any value: a wildcard, a
/// variable, a literal or a record.
pub open spec fn open_ended(p: Pattern) -> bool
    decreases p,
{
    match p {
        Pattern::Wildcard | Pattern::Variable { .. } | Pattern::Literal | Pattern::Record { .. } => true,
        Pattern::Constructor { patterns, .. } => any_open(patterns@),
        Pattern::OrPattern { left, right } => open_ended(*left) || open_ended(*right),
        Pattern::Guard { pattern, .. } => open_ended(*pattern),
    }
}

pub open spec fn any_open(s: Seq<Pattern>) -> bool
    decreases s,
{
    if s.len() == 0 {
        false
    } else {
        any_open(s.drop_last()) || open_ended(s.last())
    }
}

/// The constructors that a pattern names.
pub open spec fn named(p: Pattern) -> Set<Seq<char>>
    decreases p,
{
    match p {
        Pattern::Wildcard | Pattern::Variable { .. } | Pattern::Literal | Pattern::Record { .. } => Set::empty(),
        Pattern::Constructor { name, patterns } => all_named(patterns@).insert(name@),
        Pattern::OrPattern { left, right } => named(*left).union(named(*right)),
        Pattern::Guard { pattern, .. } => named(*pattern),
    }
}

pub open spec fn all_named(s: Seq<Pattern>) -> Set<Seq<char>>
    decreases s,
{
    if s.len() == 0 {
        Set::empty()
    } else {
        all_named(s.drop_last()).union(named(s.last()))
    }
}

pub open spec fn arm_patterns(arms: Seq<MatchArm>) -> Seq<Pattern> {
    arms.map_values(|a: MatchArm| a.pattern)
}

/// The constructors among the first `k` that are not in the set.
pub open spec fn missing_upto(ctors: Seq<String>, covered: Set<Seq<char>>, k: int) -> Seq<String>
    decreases k,
{
    if k <= 0 {
        seq![]
    } else if covered.contains(ctors[k - 1]@) {
        missing_upto(ctors, covered, k - 1)
    } else {
        missing_upto(ctors, covered, k - 1).push(ctors[k - 1])
    }
}

/// The name of the type whose constructors a match on that expression has to
/// cover, with the type.
pub open spec fn covered_type(sema: SemaResult, module: Seq<char>, scrutinee: Expr) -> Option<(Seq<char>, TypeDef)> {
    match sema.type_of(module, scrutinee.id) {
        Some(t) => match sema.def_of(t) {
            Some(def) => if def.kind == TypeDefKind::Adt {
                Some((t, def))
            } else {
                None
            },
            None => None,
        },
        None => None,
    }
}

/// The constructors that a match leaves out.
pub open spec fn left_out(def: TypeDef, arms: Seq<MatchArm>) -> Seq<String> {
    if any_open(arm_patterns(arms)) {
        seq![]
    } else {
        missing_upto(def.constructors@, all_named(arm_patterns(arms)), def.constructors@.len() as int)
    }
}

/// What a match is reported for.
pub open spec fn reports_match(sema: SemaResult, module: Seq<char>, id: ExprId, scrutinee: Expr, arms: Seq<MatchArm>, m: MissingArms) -> bool {
    &&& m.match_expr == id
    &&& covered_type(sema, module, scrutinee) matches Some(t) && m.type_of@ == t.0 && m.missing@ == left_out(t.1, arms)
}

/// Whether a match leaves out a constructor.
pub open spec fn lacks_arms(sema: SemaResult, module: Seq<char>, scrutinee: Expr, arms: Seq<MatchArm>) -> bool {
    covered_type(sema, module, scrutinee) matches Some(t) && left_out(t.1, arms).len() > 0
}

// ---- all matches -----------------------------------------------------------

/// The arms that are never taken at the first `n` places.
pub open spec fn dead_arms_upto(s: Seq<Piece>, n: int) -> Seq<DeadArm>
    decreases n,
{
    if n <= 0 {
        seq![]
    } else {
        dead_arms_upto(s, n - 1) + match s[n - 1] {
            Piece::Expr(e) | Piece::Tail(e) => match e.kind {
                ExprKind::Match { arms, .. } => dead_arms(e.id, arms@, arms@.len() as int),
                _ => seq![],
            },
            Piece::Stmt(_) => seq![],
        }
    }
}

/// The reports are those of the matches among the first `n` places that leave
/// out a constructor, in order.
pub open spec fn reports_upto(sema: SemaResult, module: Seq<char>, s: Seq<Piece>, n: int, r: Seq<MissingArms>) -> bool
    decreases n,
{
    if n <= 0 {
        r.len() == 0
    } else {
        match s[n - 1] {
            Piece::Expr(e) | Piece::Tail(e) => match e.kind {
                ExprKind::Match { scrutinee, arms } => if lacks_arms(sema, module, *scrutinee, arms@) {
                    &&& r.len() > 0
                    &&& reports_match(sema, module, e.id, *scrutinee, arms@, r.last())
                    &&& reports_upto(sema, module, s, n - 1, r.drop_last())
                } else {
                    reports_upto(sema, module, s, n - 1, r)
                },
                _ => reports_upto(sema, module, s, n - 1, r),
            },
            Piece::Stmt(_) => reports_upto(sema, module, s, n - 1, r),
        }
    }
}

/// The places of the first `n` functions, function by function.
pub open spec fn body_places<'a>(metas: Seq<(FuncId, FuncMetaRef<'a>)>, n: int) -> Seq<Piece<'a>>
    decreases n,
{
    if n <= 0 {
        seq![]
    } else {
        body_places(metas, n - 1) + reached(Walk::Inner, Piece::Expr(metas[n - 1].1.body))
    }
}

fn collect_pattern_ctors(p: &Pattern, covered: &mut NameSet) -> (any: bool)
    ensures
        any == open_ended(*p),
        final(covered)@ == old(covered)@.union(named(*p)),
    decreases p,
{
    let ghost start = covered@;
    match p {
        Pattern::Wildcard | Pattern::Variable { .. } | Pattern::Literal | Pattern::Record { .. } => {
            assert(covered@ =~= start.union(named(*p)));
            true
        },
        Pattern::Constructor { name, patterns } => {
            covered.insert(name.clone());
            let ghost own = covered@;
            let mut any: bool = false;
            let mut i: usize = 0;
            assert(covered@ =~= own.union(all_named(patterns@.take(0))));
            while i < patterns.len()
                invariant
                    i <= patterns@.len(),
                    decreases_to!(*p => patterns@),
                    any == any_open(patterns@.take(i as int)),
                    covered@ == own.union(all_named(patterns@.take(i as int))),
                decreases patterns@.len() - i,
            {
                assert(patterns@.take(i + 1).drop_last() =~= patterns@.take(i as int));
                assert(decreases_to!(patterns@ => patterns@[i as int]));
                let one = collect_pattern_ctors(&patterns[i], covered);
                any = any || one;
                i = i + 1;
                assert(covered@ =~= own.union(all_named(patterns@.take(i as int))));
            }
            assert(patterns@.take(i as int) =~= patterns@);
            assert(covered@ =~= start.union(named(*p)));
            any
        },
        Pattern::OrPattern { left, right } => {
            let a = collect_pattern_ctors(left, covered);
            let b = collect_pattern_ctors(right, covered);
            assert(covered@ =~= start.union(named(*p)));
            a || b
        },
        Pattern::Guard { pattern, .. } => collect_pattern_ctors(pattern, covered),
    }
}

fn find_dead_arms(id: ExprId, arms: &Vec<MatchArm>, out: &mut Vec<DeadArm>)
    ensures
        final(out)@ == old(out)@ + dead_arms(id, arms@, arms@.len() as int),
{
    let ghost start = out@;
    let mut seen: bool = false;
    let mut i: usize = 0;
    assert(out@ =~= start + dead_arms(id, arms@, 0));
    while i < arms.len()
        invariant
            i <= arms@.len(),
            seen == taken_before(arms@, i as int),
            out@ == start + dead_arms(id, arms@, i as int),
        decreases arms@.len() - i,
    {
        if seen {
            out.push(DeadArm { match_expr: id, arm: i });
        }
        let all: bool = matches!(arms[i].pattern, Pattern::Wildcard) && arms[i].guard.is_none();
        proof {
            assert(all == takes_all(arms@[i as int]));
            if taken_before(arms@, i + 1) && !all {
                let k = choose|k: int| 0 <= k < i + 1 && takes_all(#[trigger] arms@[k]);
                assert(k < i && takes_all(arms@[k]));
            }
            if seen {
                let k = choose|k: int| 0 <= k < i && takes_all(#[trigger] arms@[k]);
                assert(takes_all(arms@[k]));
            }
        }
        if all {
            seen = true;
        }
        i = i + 1;
        assert(out@ =~= start + dead_arms(id, arms@, i as int));
    }
}

/// The constructors that a match leaves out, with the name of the type.
fn find_missing(scrutinee: &Expr, arms: &Vec<MatchArm>, module_name: &String, sema: &SemaResult) -> (r: Option<
    (String, Vec<String>),
>)
    ensures
        match r {
            Some(m) => covered_type(*sema, module_name@, *scrutinee) matches Some(t) && m.0@ == t.0 && m.1@
                == left_out(t.1, arms@) && m.1@.len() > 0,
            None => !lacks_arms(*sema, module_name@, *scrutinee, arms@),
        },
{
    let info = match sema.expr_info(module_name, scrutinee.id) {
        Some(info) => info,
        None => {
            return None;
        },
    };
    let name = match &info.type_of {
        Some(t) => t,
        None => {
            return None;
        },
    };
    let def = match sema.get_type_def(name) {
        Some(def) => def,
        None => {
            return None;
        },
    };
    if def.kind != TypeDefKind::Adt {
        return None;
    }
    let mut covered = NameSet::new();
    let mut any: bool = false;
    let mut i: usize = 0;
    assert(covered@ =~= all_named(arm_patterns(arms@.take(0))));
    while i < arms.len()
        invariant
            i <= arms@.len(),
            any == any_open(arm_patterns(arms@.take(i as int))),
            covered@ == all_named(arm_patterns(arms@.take(i as int))),
        decreases arms@.len() - i,
    {
        assert(arm_patterns(arms@.take(i + 1)).drop_last() =~= arm_patterns(arms@.take(i as int)));
        let one = collect_pattern_ctors(&arms[i].pattern, &mut covered);
        any = any || one;
        i = i + 1;
        assert(covered@ =~= all_named(arm_patterns(arms@.take(i as int))));
    }
    assert(arms@.take(i as int) =~= arms@);
    if any {
        return None;
    }
    let mut missing: Vec<String> = Vec::new();
    let mut k: usize = 0;
    while k < def.constructors.len()
        invariant
            k <= def.constructors@.len(),
            missing@ == missing_upto(def.constructors@, covered@, k as int),
        decreases def.constructors@.len() - k,
    {
        if !covered.contains(def.constructors[k].as_str()) {
            missing.push(def.constructors[k].clone());
        }
        k = k + 1;
    }
    if missing.len() == 0 {
        return None;
    }
    Some((name.clone(), missing))
}

proof fn lemma_dead_arms_join(a: Seq<Piece>, b: Seq<Piece>, n: int)
    requires
        0 <= n <= b.len(),
    ensures
        dead_arms_upto(a + b, a.len() + n) == dead_arms_upto(a, a.len() as int) + dead_arms_upto(b, n),
    decreases n,
{
    if n == 0 {
        lemma_dead_arms_prefix(a, b, a.len() as int);
        assert(dead_arms_upto(a, a.len() as int) + dead_arms_upto(b, 0) =~= dead_arms_upto(a, a.len() as int));
    } else {
        lemma_dead_arms_join(a, b, n - 1);
        assert((a + b)[a.len() + n - 1] == b[n - 1]);
        assert(dead_arms_upto(a + b, a.len() + n) =~= dead_arms_upto(a, a.len() as int) + dead_arms_upto(b, n));
    }
}

proof fn lemma_dead_arms_prefix(a: Seq<Piece>, b: Seq<Piece>, n: int)
    requires
        0 <= n <= a.len(),
    ensures
        dead_arms_upto(a + b, n) == dead_arms_upto(a, n),
    decreases n,
{
    if n > 0 {
        lemma_dead_arms_prefix(a, b, n - 1);
        assert((a + b)[n - 1] == a[n - 1]);
    }
}

proof fn lemma_reports_prefix(sema: SemaResult, module: Seq<char>, a: Seq<Piece>, b: Seq<Piece>, n: int, r: Seq<MissingArms>)
    requires
        0 <= n <= a.len(),
        reports_upto(sema, module, a, n, r),
    ensures
        reports_upto(sema, module, a + b, n, r),
    decreases n,
{
    if n > 0 {
        assert((a + b)[n - 1] == a[n - 1]);
        match a[n - 1] {
            Piece::Expr(e) | Piece::Tail(e) => match e.kind {
                ExprKind::Match { scrutinee, arms } => {
                    if lacks_arms(sema, module, *scrutinee, arms@) {
                        lemma_reports_prefix(sema, module, a, b, n - 1, r.drop_last());
                    } else {
                        lemma_reports_prefix(sema, module, a, b, n - 1, r);
                    }
                },
                _ => {
                    lemma_reports_prefix(sema, module, a, b, n - 1, r);
                },
            },
            Piece::Stmt(_) => {
                lemma_reports_prefix(sema, module, a, b, n - 1, r);
            },
        }
    }
}

/// The matches of the module that leave out a constructor, and the arms that
/// are never taken.
pub fn match_pass(module: &Module, sema: &SemaResult, cg: &CallGraph) -> (report: MatchReport)
    ensures
        ({
            let s = body_places(cg.metas(*module), cg.metas(*module).len() as int);
            &&& report.unreachable_arms@ == dead_arms_upto(s, s.len() as int)
            &&& reports_upto(*sema, module.name@, s, s.len() as int, report.non_exhaustive@)
        }),
{
    let metas = cg.iter_funcs(module);
    let mut non_exhaustive: Vec<MissingArms> = Vec::new();
    let mut unreachable_arms: Vec<DeadArm> = Vec::new();
    let mut i: usize = 0;
    while i < metas.len()
        invariant
            i <= metas@.len(),
            ({
                let s = body_places(metas@, i as int);
                &&& unreachable_arms@ == dead_arms_upto(s, s.len() as int)
                &&& reports_upto(*sema, module.name@, s, s.len() as int, non_exhaustive@)
            }),
        decreases metas@.len() - i,
    {
        let (_func, meta) = metas[i];
        let places = reach(Walk::Inner, Piece::Expr(meta.body));
        let ghost done = body_places(metas@, i as int);
        let ghost s = done + places@;
        let ghost first = unreachable_arms@;
        proof {
            lemma_reports_prefix(*sema, module.name@, done, places@, done.len() as int, non_exhaustive@);
            assert(first + dead_arms_upto(places@, 0) =~= first);
        }
        let mut k: usize = 0;
        while k < places.len()
            invariant
                k <= places@.len(),
                s == done + places@,
                unreachable_arms@ == first + dead_arms_upto(places@, k as int),
                reports_upto(*sema, module.name@, s, done.len() + k, non_exhaustive@),
            decreases places@.len() - k,
        {
            assert(s[done.len() + k] == places@[k as int]);
            if let Piece::Expr(e) | Piece::Tail(e) = places[k] {
                if let ExprKind::Match { scrutinee, arms } = &e.kind {
                    find_dead_arms(e.id, arms, &mut unreachable_arms);
                    let ghost before = non_exhaustive@;
                    if let Some((type_of, missing)) = find_missing(scrutinee, arms, &module.name, sema) {
                        non_exhaustive.push(MissingArms { match_expr: e.id, type_of, missing });
                        assert(non_exhaustive@.drop_last() =~= before);
                    }
                }
            }
            k = k + 1;
            assert(unreachable_arms@ =~= first + dead_arms_upto(places@, k as int));
        }
        proof {
            lemma_dead_arms_join(done, places@, places@.len() as int);
        }
        i = i + 1;
    }
    MatchReport { non_exhaustive, unreachable_arms }
}

/// An arm is never taken exactly where an arm before it takes everything.
pub proof fn law_dead_arms(id: ExprId, arms: Seq<MatchArm>, k: int, i: int)
    requires
        0 <= i < k <= arms.len() <= usize::MAX,
    ensures
        dead_arms(id, arms, k).contains(DeadArm { match_expr: id, arm: i as usize }) <==> exists|j: int|
            0 <= j < i && takes_all(#[trigger] arms[j]),
    decreases k,
{
    let x = DeadArm { match_expr: id, arm: i as usize };
    let rest = dead_arms(id, arms, k - 1);
    let all = dead_arms(id, arms, k);
    if i < k - 1 {
        law_dead_arms(id, arms, k - 1, i);
        if all.contains(x) {
            let n = choose|n: int| 0 <= n < all.len() && all[n] == x;
            assert(rest[n] == x);
        }
        if rest.contains(x) {
            let n = choose|n: int| 0 <= n < rest.len() && rest[n] == x;
            assert(all[n] == x);
        }
    } else {
        lemma_dead_arms_below(id, arms, k - 1);
        if taken_before(arms, k - 1) {
            assert(all.last() == x);
        } else if all.contains(x) {
            let n = choose|n: int| 0 <= n < rest.len() && rest[n] == x;
            assert(rest[n].arm < k - 1);
        }
    }
}

proof fn lemma_dead_arms_below(id: ExprId, arms: Seq<MatchArm>, k: int)
    requires
        0 <= k <= arms.len() <= usize::MAX,
    ensures
        forall|n: int| 0 <= n < dead_arms(id, arms, k).len() ==> (#[trigger] dead_arms(id, arms, k)[n]).arm < k,
    decreases k,
{
    if k > 0 {
        lemma_dead_arms_below(id, arms, k - 1);
        let rest = dead_arms(id, arms, k - 1);
        let all = dead_arms(id, arms, k);
        assert forall|n: int| 0 <= n < all.len() implies (#[trigger] all[n]).arm < k by {
            if n < rest.len() {
                assert(all[n] == rest[n]);
                assert(rest[n].arm < k - 1);
            }
        }
    }
}

/// An arm is never taken exactly where one before it has a wildcard and no
/// guard.
pub proof fn law_arms_behind_a_wildcard_are_dead(id: ExprId, arms: Seq<MatchArm>, i: int)
    requires
        0 <= i < arms.len() <= usize::MAX,
    ensures
        dead_arms(id, arms, arms.len() as int).contains(DeadArm { match_expr: id, arm: i as usize }) <==> exists|j: int|
            0 <= j < i && (#[trigger] arms[j]).pattern is Wildcard && arms[j].guard is None,
{
    law_dead_arms(id, arms, arms.len() as int, i);
    if exists|j: int| 0 <= j < i && takes_all(#[trigger] arms[j]) {
        let j = choose|j: int| 0 <= j < i && takes_all(#[trigger] arms[j]);
        assert(arms[j].pattern is Wildcard && arms[j].guard is None);
    }
    if exists|j: int| 0 <= j < i && (#[trigger] arms[j]).pattern is Wildcard && arms[j].guard is None {
        let j = choose|j: int| 0 <= j < i && (#[trigger] arms[j]).pattern is Wildcard && arms[j].guard is None;
        assert(takes_all(arms[j]));
    }
}

/// A match with an arm for anything, or for literals or records, leaves nothing
/// out.
pub proof fn law_open_matches_leave_nothing_out(def: TypeDef, arms: Seq<MatchArm>, k: int)
    requires
        0 <= k < arms.len(),
        arms[k].pattern is Wildcard || arms[k].pattern is Variable || arms[k].pattern is Literal || arms[k].pattern
            is Record,
    ensures
        left_out(def, arms).len() == 0,
{
    let ps = arm_patterns(arms);
    assert(ps[k] == arms[k].pattern);
    lemma_any_open(ps, k);
}

proof fn lemma_any_open(s: Seq<Pattern>, k: int)
    requires
        0 <= k < s.len(),
        open_ended(s[k]),
    ensures
        any_open(s),
    decreases s.len(),
{
    if k < s.len() - 1 {
        assert(s.drop_last()[k] == s[k]);
        lemma_any_open(s.drop_last(), k);
    }
}

/// A match whose arms are constructors without parts leaves out exactly the
/// constructors of the type that no arm names.
pub proof fn law_unnamed_constructors_are_left_out(def: TypeDef, arms: Seq<MatchArm>, c: int)
    requires
        0 <= c < def.constructors@.len(),
        forall|k: int| #![trigger arms[k]]
            0 <= k < arms.len() ==> (arms[k].pattern matches Pattern::Constructor { patterns, .. } && patterns@.len() == 0),
    ensures
        left_out(def, arms).contains(def.constructors@[c]) || exists|k: int|
            0 <= k < arms.len() && (#[trigger] arms[k]).pattern->Constructor_name@ == def.constructors@[c]@,
        forall|x: String| #[trigger]
            left_out(def, arms).contains(x) ==> def.constructors@.contains(x) && forall|k: int|
                0 <= k < arms.len() ==> (#[trigger] arms[k]).pattern->Constructor_name@ != x@,
{
    let ps = arm_patterns(arms);
    assert forall|k: int| #![trigger ps[k]] 0 <= k < ps.len() implies (ps[k] matches Pattern::Constructor {
        patterns,
        ..
    } && patterns@.len() == 0) by {
        assert(ps[k] == arms[k].pattern);
    }
    lemma_flat_patterns(ps);
    let covered = all_named(ps);
    let n = def.constructors@.len() as int;
    lemma_missing(def.constructors@, covered, n);
    if covered.contains(def.constructors@[c]@) {
        let k = choose|k: int| 0 <= k < ps.len() && (#[trigger] ps[k])->Constructor_name@ == def.constructors@[c]@;
        assert(arms[k].pattern->Constructor_name@ == def.constructors@[c]@);
    } else {
        assert(missing_upto(def.constructors@, covered, n).contains(def.constructors@[c]));
    }
    assert forall|x: String| #[trigger] left_out(def, arms).contains(x) implies def.constructors@.contains(x) && forall|k: int|
        0 <= k < arms.len() ==> (#[trigger] arms[k]).pattern->Constructor_name@ != x@ by {
        assert forall|k: int| 0 <= k < arms.len() implies (#[trigger] arms[k]).pattern->Constructor_name@ != x@ by {
            assert(ps[k] == arms[k].pattern);
        }
    }
}

proof fn lemma_flat_patterns(s: Seq<Pattern>)
    requires
        forall|k: int| #![trigger s[k]]
            0 <= k < s.len() ==> (s[k] matches Pattern::Constructor { patterns, .. } && patterns@.len() == 0),
    ensures
        !any_open(s),
        forall|n: Seq<char>| #[trigger]
            all_named(s).contains(n) <==> exists|k: int| 0 <= k < s.len() && (#[trigger] s[k])->Constructor_name@ == n,
    decreases s.len(),
{
    if s.len() > 0 {
        let r = s.drop_last();
        assert forall|k: int| #![trigger r[k]] 0 <= k < r.len() implies (r[k] matches Pattern::Constructor {
            patterns,
            ..
        } && patterns@.len() == 0) by {
            assert(r[k] == s[k]);
        }
        lemma_flat_patterns(r);
        let l = s[s.len() - 1];
        assert(l == s.last());
        match l {
            Pattern::Constructor { name, patterns } => {
                assert(!any_open(patterns@));
                assert(all_named(patterns@) =~= Set::empty());
                assert(!open_ended(l));
                assert(named(l) == all_named(patterns@).insert(name@));
                assert(any_open(s) == (any_open(r) || open_ended(l)));
                assert(all_named(s) == all_named(r).union(named(l)));
                assert forall|n: Seq<char>| #[trigger] all_named(s).contains(n) <==> exists|k: int|
                    0 <= k < s.len() && (#[trigger] s[k])->Constructor_name@ == n by {
                    if all_named(r).contains(n) {
                        let k = choose|k: int| 0 <= k < r.len() && (#[trigger] r[k])->Constructor_name@ == n;
                        assert(s[k]->Constructor_name@ == n);
                    }
                    if name@ == n {
                        assert(s[s.len() - 1]->Constructor_name@ == n);
                    }
                    if exists|k: int| 0 <= k < s.len() && (#[trigger] s[k])->Constructor_name@ == n {
                        let k = choose|k: int| 0 <= k < s.len() && (#[trigger] s[k])->Constructor_name@ == n;
                        if k < r.len() {
                            assert(r[k]->Constructor_name@ == n);
                        }
                    }
                }
            },
            _ => {},
        }
    }
}

proof fn lemma_missing(ctors: Seq<String>, covered: Set<Seq<char>>, n: int)
    requires
        0 <= n <= ctors.len(),
    ensures
        forall|c: int| #![trigger ctors[c]]
            0 <= c < n && !covered.contains(ctors[c]@) ==> missing_upto(ctors, covered, n).contains(ctors[c]),
        forall|x: String| #[trigger]
            missing_upto(ctors, covered, n).contains(x) ==> ctors.contains(x) && !covered.contains(x@),
    decreases n,
{
    if n > 0 {
        lemma_missing(ctors, covered, n - 1);
        let r = missing_upto(ctors, covered, n - 1);
        let l = ctors[n - 1];
        assert(ctors.contains(l));
        assert(r.push(l)[r.len() as int] == l);
        assert forall|c: int| #![trigger ctors[c]] 0 <= c < n && !covered.contains(ctors[c]@) implies missing_upto(
            ctors,
            covered,
            n,
        ).contains(ctors[c]) by {
            if c < n - 1 {
                let k = choose|k: int| 0 <= k < r.len() && r[k] == ctors[c];
                assert(r.push(l)[k] == ctors[c]);
            }
        }
        assert forall|x: String| #[trigger] missing_upto(ctors, covered, n).contains(x) implies ctors.contains(x)
            && !covered.contains(x@) by {
            if r.contains(x) {
            } else {
                let k = choose|k: int| 0 <= k < r.push(l).len() && r.push(l)[k] == x;
                if k < r.len() {
                    assert(r[k] == x);
                }
            }
        }
    }
}

/// Every match among the places that leaves out a constructor is reported, with
/// the type and what is missing, and every report is one of such a match.
pub proof fn law_incomplete_matches_are_reported(
    sema: SemaResult,
    module: Seq<char>,
    s: Seq<Piece>,
    n: int,
    r: Seq<MissingArms>,
    i: int,
    e: Expr,
)
    requires
        0 <= i < n <= s.len(),
        reports_upto(sema, module, s, n, r),
        s[i] == Piece::Expr(&e),
        e.kind is Match,
        covered_type(sema, module, *(e.kind->scrutinee)) is Some,
        left_out((covered_type(sema, module, *(e.kind->scrutinee))->0).1, e.kind->arms@).len() > 0,
    ensures
        exists|j: int|
            0 <= j < r.len() && (#[trigger] r[j]).match_expr == e.id && r[j].missing@ == left_out(
                (covered_type(sema, module, *(e.kind->scrutinee))->0).1,
                e.kind->arms@,
            ),
    decreases n,
{
    let t = covered_type(sema, module, *(e.kind->scrutinee))->0;
    let missing = left_out(t.1, e.kind->arms@);
    if i == n - 1 {
        let j = r.len() - 1;
        assert(r[j].match_expr == e.id && r[j].missing@ == missing);
    } else {
        let here = match s[n - 1] {
            Piece::Expr(x) | Piece::Tail(x) => match x.kind {
                ExprKind::Match { scrutinee, arms } => lacks_arms(sema, module, *scrutinee, arms@),
                _ => false,
            },
            Piece::Stmt(_) => false,
        };
        if here {
            let q = r.drop_last();
            law_incomplete_matches_are_reported(sema, module, s, n - 1, q, i, e);
            let j = choose|j: int| 0 <= j < q.len() && (#[trigger] q[j]).match_expr == e.id && q[j].missing@ == missing;
            assert(r[j].match_expr == e.id && r[j].missing@ == missing);
        } else {
            law_incomplete_matches_are_reported(sema, module, s, n - 1, r, i, e);
        }
    }
}

/// The constructors to cover are those of the type that the match looks at,
/// where that is known and has constructors.
pub proof fn law_only_matches_on_constructors_are_covered(sema: SemaResult, module: Seq<char>, scrutinee: Expr)
    ensures
        covered_type(sema, module, scrutinee) matches Some(t) ==> sema.type_of(module, scrutinee.id) == Some(t.0)
            && sema.def_of(t.0) == Some(t.1) && t.1.kind == TypeDefKind::Adt,
        covered_type(sema, module, scrutinee) is None ==> (sema.type_of(module, scrutinee.id) matches Some(t) ==> (
        sema.def_of(t) matches Some(d) ==> d.kind != TypeDefKind::Adt)),
{
}

/// The places of all functions are looked at.
pub proof fn law_all_functions_are_looked_at<'a>(metas: Seq<(FuncId, FuncMetaRef<'a>)>, n: int, i: int, p: Piece<'a>)
    requires
        0 <= i < n <= metas.len(),
        reached(Walk::Inner, Piece::Expr(metas[i].1.body)).contains(p),
    ensures
        body_places(metas, n).contains(p),
    decreases n,
{
    let a = body_places(metas, n - 1);
    let b = reached(Walk::Inner, Piece::Expr(metas[n - 1].1.body));
    if i < n - 1 {
        law_all_functions_are_looked_at(metas, n - 1, i, p);
        let k = choose|k: int| 0 <= k < a.len() && a[k] == p;
        assert((a + b)[k] == p);
    } else {
        let k = choose|k: int| 0 <= k < b.len() && b[k] == p;
        assert((a + b)[a.len() + k] == p);
    }
}

/// The dead arms of every match among the places are listed.
pub proof fn law_dead_arms_are_listed(s: Seq<Piece>, n: int, i: int, e: Expr, x: DeadArm)
    requires
        0 <= i < n <= s.len(),
        s[i] == Piece::Expr(&e),
        e.kind is Match,
        dead_arms(e.id, e.kind->arms@, e.kind->arms@.len() as int).contains(x),
    ensures
        dead_arms_upto(s, n).contains(x),
    decreases n,
{
    let a = dead_arms_upto(s, n - 1);
    let b = match s[n - 1] {
        Piece::Expr(e) | Piece::Tail(e) => match e.kind {
            ExprKind::Match { arms, .. } => dead_arms(e.id, arms@, arms@.len() as int),
            _ => seq![],
        },
        Piece::Stmt(_) => seq![],
    };
    if i < n - 1 {
        law_dead_arms_are_listed(s, n - 1, i, e, x);
        let k = choose|k: int| 0 <= k < a.len() && a[k] == x;
        assert((a + b)[k] == x);
    } else {
        let k = choose|k: int| 0 <= k < b.len() && b[k] == x;
        assert((a + b)[a.len() + k] == x);
    }
}

} // verus!
