//! Definitions and uses of variables: which definition each read sees.

use super::def_use_events::{collect_def_use, events, Event, Spot};
use super::tables::{FuncId, UseId, VarId};
use crate::ast::tree::{Decl, ExprId, FunDecl, Module, Param, StmtId, StmtKind, NO_STMT};
use crate::ast::walk::Piece;
use crate::fx::{no_entries, no_names, NameMap, NameSet, Table};
use vstd::prelude::*;

verus! {

/// A definition of a variable. That of a parameter, or of a variable that a
/// pattern binds, has no statement of its own.
#[derive(Debug)]
pub struct DefNode {
    pub name: String,
    pub stmt: StmtId,
    pub func: FuncId,
    pub is_mutable: bool,
}

/// A read of a variable.
#[derive(Debug, Clone, Copy)]
pub struct UseNode {
    pub var: VarId,
    pub expr: ExprId,
    pub func: FuncId,
}

/// The definitions and uses of a module's functions.
#[derive(Debug)]
pub struct DefUseGraph {
    pub defs: Vec<DefNode>,
    pub uses: Vec<UseNode>,
    /// The uses of each definition, in order.
    pub def_to_uses: Vec<Vec<UseId>>,
    /// The last definition of each name, by function: the function's place in
    /// `names`.
    pub scopes: Table<u32>,
    pub names: Vec<NameMap>,
    /// The parameters of each function.
    pub live_in: Table<Vec<VarId>>,
    /// The variables of the module. Assigning one defines no local variable.
    pub global_vars: NameSet,
}

/// The last definition of the variable in the function.
pub open spec fn last_def(defs: Seq<DefNode>, func: FuncId, name: Seq<char>) -> Option<VarId>
    decreases defs.len(),
{
    if defs.len() == 0 {
        None
    } else if defs.last().func == func && defs.last().name@ == name {
        Some(VarId((defs.len() - 1) as u32))
    } else {
        last_def(defs.drop_last(), func, name)
    }
}

proof fn lemma_last_def(defs: Seq<DefNode>, func: FuncId, name: Seq<char>)
    requires
        defs.len() <= u32::MAX,
    ensures
        match last_def(defs, func, name) {
            Some(v) => v.0 < defs.len() && defs[v.0 as int].func == func && defs[v.0 as int].name@ == name,
            None => forall|i: int| 0 <= i < defs.len() && (#[trigger] defs[i]).func == func ==> defs[i].name@ != name,
        },
    decreases defs.len(),
{
    if defs.len() > 0 && !(defs.last().func == func && defs.last().name@ == name) {
        lemma_last_def(defs.drop_last(), func, name);
        if last_def(defs, func, name) is None {
            assert forall|i: int| 0 <= i < defs.len() && (#[trigger] defs[i]).func == func implies defs[i].name@
                != name by {
                if i < defs.len() - 1 {
                    assert(defs.drop_last()[i] == defs[i]);
                }
            }
        }
    }
}

/// The places of the uses of `var` among the first `n` uses.
pub open spec fn uses_of(uses: Seq<UseNode>, var: VarId) -> Seq<UseId>
    decreases uses.len(),
{
    if uses.len() == 0 {
        seq![]
    } else if uses.last().var == var {
        uses_of(uses.drop_last(), var).push(UseId((uses.len() - 1) as u32))
    } else {
        uses_of(uses.drop_last(), var)
    }
}

proof fn lemma_uses_of(uses: Seq<UseNode>, var: VarId)
    requires
        uses.len() <= u32::MAX,
    ensures
        uses_of(uses, var).len() == 0 <==> forall|i: int| 0 <= i < uses.len() ==> (#[trigger] uses[i]).var != var,
    decreases uses.len(),
{
    if uses.len() > 0 {
        lemma_uses_of(uses.drop_last(), var);
        if uses.last().var != var && uses_of(uses, var).len() == 0 {
            assert forall|i: int| 0 <= i < uses.len() implies (#[trigger] uses[i]).var != var by {
                if i < uses.len() - 1 {
                    assert(uses.drop_last()[i] == uses[i]);
                }
            }
        }
        if forall|i: int| 0 <= i < uses.len() ==> (#[trigger] uses[i]).var != var {
            assert forall|i: int| 0 <= i < uses.len() - 1 implies (#[trigger] uses.drop_last()[i]).var != var by {
                assert(uses[i].var != var);
            }
        }
    }
}

/// The definitions and uses alone.
pub struct Trace {
    pub defs: Seq<DefNode>,
    pub uses: Seq<UseNode>,
}

/// The definitions and uses after one more event in the function.
pub open spec fn after(t: Trace, globals: Set<Seq<char>>, func: FuncId, ev: Event) -> Trace {
    match ev {
        Event::Use { name, at } => match last_def(t.defs, func, name@) {
            Some(var) => Trace { uses: t.uses.push(UseNode { var, expr: at, func }), ..t },
            None => t,
        },
        Event::Def { name, stmt, is_mutable } => Trace {
            defs: t.defs.push(DefNode { name: *name, stmt, func, is_mutable }),
            ..t
        },
        Event::Assign { name, stmt } => if globals.contains(name@) {
            t
        } else {
            Trace { defs: t.defs.push(DefNode { name: *name, stmt, func, is_mutable: true }), ..t }
        },
    }
}

/// The definitions and uses after the events, in order.
pub open spec fn after_all(t: Trace, globals: Set<Seq<char>>, func: FuncId, evs: Seq<Event>) -> Trace
    decreases evs.len(),
{
    if evs.len() == 0 {
        t
    } else {
        after(after_all(t, globals, func, evs.drop_last()), globals, func, evs.last())
    }
}

/// A function defines its parameters, then runs its body.
pub open spec fn fun_events<'a>(f: FunDecl) -> Seq<Event<'a>> {
    param_events(f.params@) + events(Spot::Piece(Piece::Expr(&f.body)))
}

pub open spec fn param_events<'a>(params: Seq<Param>) -> Seq<Event<'a>> {
    Seq::new(
        params.len(),
        |i: int| Event::Def { name: &params[i].name, stmt: StmtId(NO_STMT), is_mutable: false },
    )
}

/// Number of events of the first `k` declarations.
pub open spec fn event_count(m: Module, k: int) -> nat
    decreases k,
{
    if k <= 0 {
        0
    } else {
        event_count(m, k - 1) + match m.declarations@[k - 1] {
            Decl::Fun(f) => fun_events(f).len(),
            _ => 0,
        }
    }
}

/// The module's declarations, definitions and uses can be numbered.
pub open spec fn numberable(m: Module) -> bool {
    &&& m.declarations@.len() <= u32::MAX
    &&& event_count(m, m.declarations@.len() as int) <= u32::MAX
}

/// The variables that the first `k` declarations make.
pub open spec fn globals_upto(m: Module, k: int) -> Set<Seq<char>>
    decreases k,
{
    if k <= 0 {
        Set::empty()
    } else {
        match global_name(m.declarations@[k - 1]) {
            Some(n) => globals_upto(m, k - 1).insert(n),
            None => globals_upto(m, k - 1),
        }
    }
}

/// The variable of the module that a declaration makes.
pub open spec fn global_name(d: Decl) -> Option<Seq<char>> {
    match d {
        Decl::Expr { stmt: Some(s) } => match s.kind {
            StmtKind::VarDecl { name, .. } | StmtKind::ValDecl { name, .. } => Some(name@),
            _ => None,
        },
        _ => None,
    }
}

/// The variables of the module.
pub open spec fn globals(m: Module) -> Set<Seq<char>> {
    globals_upto(m, m.declarations@.len() as int)
}

/// The definitions and uses of the first `k` declarations.
pub open spec fn trace_upto(m: Module, k: int) -> Trace
    decreases k,
{
    if k <= 0 {
        Trace { defs: seq![], uses: seq![] }
    } else {
        match m.declarations@[k - 1] {
            Decl::Fun(f) => after_all(trace_upto(m, k - 1), globals(m), FuncId((k - 1) as u32), fun_events(f)),
            _ => trace_upto(m, k - 1),
        }
    }
}

/// The definitions and uses of the module.
pub open spec fn trace(m: Module) -> Trace {
    trace_upto(m, m.declarations@.len() as int)
}

/// The parameters of the function that declaration `k` makes, if it makes one.
pub open spec fn entry_vars(m: Module, k: int) -> Option<Seq<VarId>> {
    match m.declarations@[k] {
        Decl::Fun(f) => Some(
            Seq::new(f.params@.len(), |i: int| VarId((trace_upto(m, k).defs.len() + i) as u32)),
        ),
        _ => None,
    }
}

/// What is known on entry holds the parameters of the functions among the
/// first `k` declarations, and nothing else.
pub open spec fn entries_upto(live: Map<u32, Vec<VarId>>, m: Module, k: int) -> bool {
    forall|j: u32| #[trigger] entry_ok(live, m, k, j)
}

pub open spec fn entry_ok(live: Map<u32, Vec<VarId>>, m: Module, k: int, j: u32) -> bool {
    if j < k && entry_vars(m, j as int) is Some {
        live.contains_key(j) && live[j]@ == entry_vars(m, j as int)->0
    } else {
        !live.contains_key(j)
    }
}

/// The variables known on entry are definitions in their function.
pub open spec fn entries_defined(live: Map<u32, Vec<VarId>>, defs: Seq<DefNode>) -> bool {
    forall|f: u32, i: int|
        live.contains_key(f) && 0 <= i < live[f]@.len() ==> (#[trigger] live[f]@[i]).0 < defs.len()
            && defs[live[f]@[i].0 as int].func == FuncId(f)
}

impl DefUseGraph {
    /// The index knows the last definition of every name.
    pub open spec fn indexed(self) -> bool {
        &&& self.scopes.wf()
        &&& self.names@.len() <= self.defs@.len()
        &&& forall|f: u32| #[trigger] self.scopes@.contains_key(f) ==> self.scopes@[f] < self.names@.len()
        &&& forall|f: u32, g: u32| #[trigger]
            self.scopes@.contains_key(f) && #[trigger] self.scopes@.contains_key(g) && f != g ==> self.scopes@[f]
                != self.scopes@[g]
        &&& forall|f: FuncId, n: Seq<char>| #[trigger] last_def(self.defs@, f, n) == self.indexed_def(f, n)
    }

    /// The last definition of a name, as the index has it.
    pub open spec fn indexed_def(self, f: FuncId, n: Seq<char>) -> Option<VarId> {
        if self.scopes@.contains_key(f.0) && self.names@[self.scopes@[f.0] as int]@.contains_key(n) {
            Some(VarId(self.names@[self.scopes@[f.0] as int]@[n]))
        } else {
            None
        }
    }

    /// Every use is listed with its definition, which is one of the same
    /// function; the parameters of a function are definitions in it.
    pub open spec fn wf(self) -> bool {
        &&& self.indexed()
        &&& self.defs@.len() <= u32::MAX
        &&& self.uses@.len() <= u32::MAX
        &&& self.def_to_uses@.len() == self.defs@.len()
        &&& self.live_in.wf()
        &&& entries_defined(self.live_in@, self.defs@)
        &&& forall|i: int| 0 <= i < self.uses@.len() ==> (#[trigger] self.uses@[i]).var.0 < self.defs@.len()
        &&& forall|i: int|
            0 <= i < self.uses@.len() ==> self.defs@[(#[trigger] self.uses@[i]).var.0 as int].func
                == self.uses@[i].func
        &&& forall|v: int|
            0 <= v < self.defs@.len() ==> (#[trigger] self.def_to_uses@[v])@ == uses_of(self.uses@, VarId(v as u32))
    }

    pub open spec fn trace(self) -> Trace {
        Trace { defs: self.defs@, uses: self.uses@ }
    }

    /// Whether some use reads the definition.
    pub open spec fn is_read(self, var: int) -> bool {
        exists|i: int| 0 <= i < self.uses@.len() && (#[trigger] self.uses@[i]).var.0 == var
    }

    /// Whether some use reads a definition of that name in the function.
    pub open spec fn name_is_read(self, func: FuncId, name: Seq<char>) -> bool {
        exists|v: int|
            0 <= v < self.defs@.len() && (#[trigger] self.defs@[v]).func == func && self.defs@[v].name@ == name
                && self.is_read(v)
    }

    pub fn new() -> (g: Self)
        ensures
            g.wf(),
            g.defs@.len() == 0,
            g.uses@.len() == 0,
            g.live_in@ == no_entries::<Vec<VarId>>(),
            g.global_vars@ == Set::<Seq<char>>::empty(),
    {
        DefUseGraph {
            defs: Vec::new(),
            uses: Vec::new(),
            def_to_uses: Vec::new(),
            scopes: Table::new(),
            names: Vec::new(),
            live_in: Table::new(),
            global_vars: NameSet::new(),
        }
    }

    /// Adds a definition.
    pub fn add_def(&mut self, name: &String, stmt: StmtId, func: FuncId, is_mutable: bool) -> (id: VarId)
        requires
            old(self).wf(),
            old(self).defs@.len() < u32::MAX,
        ensures
            final(self).wf(),
            id.0 == old(self).defs@.len(),
            final(self).defs@ == old(self).defs@.push(DefNode { name: *name, stmt, func, is_mutable }),
            final(self).uses@ == old(self).uses@,
            final(self).live_in == old(self).live_in,
            final(self).global_vars == old(self).global_vars,
    {
        let id = VarId(self.defs.len() as u32);
        let ghost first = *self;
        let slot: usize = match self.scopes.get(func.0) {
            Some(i) => *i as usize,
            None => {
                let i = self.names.len();
                self.names.push(NameMap::new());
                self.scopes.put(func.0, i as u32);
                i
            },
        };
        let ghost opened = *self;
        self.names[slot].insert(name.clone(), id.0);
        self.defs.push(DefNode { name: name.clone(), stmt, func, is_mutable });
        self.def_to_uses.push(Vec::new());
        proof {
            lemma_uses_of(self.uses@, id);
            assert(uses_of(self.uses@, id) =~= seq![]);
            assert(self.defs@.drop_last() =~= first.defs@);
            assert forall|f: FuncId, n: Seq<char>| #[trigger] last_def(self.defs@, f, n) == self.indexed_def(f, n) by {
                assert(last_def(first.defs@, f, n) == first.indexed_def(f, n));
                if f == func {
                    if !first.scopes@.contains_key(f.0) {
                        assert(opened.names@[slot as int]@ == no_names());
                    }
                } else if self.scopes@.contains_key(f.0) {
                    assert(first.scopes@.contains_key(f.0));
                    assert(self.scopes@[f.0] != slot);
                }
            }
        }
        id
    }

    /// Adds a use of a definition.
    pub fn add_use(&mut self, var: VarId, expr: ExprId, func: FuncId) -> (id: UseId)
        requires
            old(self).wf(),
            var.0 < old(self).defs@.len(),
            old(self).defs@[var.0 as int].func == func,
            old(self).uses@.len() < u32::MAX,
        ensures
            final(self).wf(),
            id.0 == old(self).uses@.len(),
            final(self).uses@ == old(self).uses@.push(UseNode { var, expr, func }),
            final(self).defs@ == old(self).defs@,
            final(self).live_in == old(self).live_in,
            final(self).global_vars == old(self).global_vars,
    {
        let id = UseId(self.uses.len() as u32);
        self.uses.push(UseNode { var, expr, func });
        self.def_to_uses[var.0 as usize].push(id);
        proof {
            assert(self.uses@.drop_last() =~= old(self).uses@);
            assert forall|v: int| 0 <= v < self.defs@.len() implies (#[trigger] self.def_to_uses@[v])@ == uses_of(
                self.uses@,
                VarId(v as u32),
            ) by {
                assert(old(self).def_to_uses@[v]@ == uses_of(old(self).uses@, VarId(v as u32)));
            }
        }
        id
    }

    /// The definition that a read of the variable sees now: the last one in
    /// the function.
    pub fn lookup(&self, func: FuncId, name: &String) -> (r: Option<VarId>)
        requires
            self.wf(),
        ensures
            r == last_def(self.defs@, func, name@),
            r matches Some(v) ==> v.0 < self.defs@.len() && self.defs@[v.0 as int].func == func,
    {
        proof {
            lemma_last_def(self.defs@, func, name@);
            assert(last_def(self.defs@, func, name@) == self.indexed_def(func, name@));
        }
        match self.scopes.get(func.0) {
            Some(i) => match self.names[*i as usize].get(name.as_str()) {
                Some(v) => Some(VarId(v)),
                None => None,
            },
            None => None,
        }
    }

    /// Whether no use reads the definition.
    pub fn is_never_read(&self, var: VarId) -> (r: bool)
        requires
            self.wf(),
            var.0 < self.defs@.len(),
        ensures
            r == !self.is_read(var.0 as int),
    {
        proof {
            lemma_uses_of(self.uses@, var);
            assert(self.def_to_uses@[var.0 as int]@ == uses_of(self.uses@, VarId(var.0)));
            if !self.is_read(var.0 as int) {
                assert forall|i: int| 0 <= i < self.uses@.len() implies (#[trigger] self.uses@[i]).var != var by {}
            }
        }
        self.def_to_uses[var.0 as usize].len() == 0
    }

    /// Whether some use reads a definition of that name in the function.
    pub fn is_name_ever_read(&self, func: FuncId, name: &String) -> (r: bool)
        requires
            self.wf(),
        ensures
            r == self.name_is_read(func, name@),
    {
        let mut i: usize = 0;
        while i < self.defs.len()
            invariant
                self.wf(),
                i <= self.defs@.len(),
                forall|v: int|
                    0 <= v < i && (#[trigger] self.defs@[v]).func == func && self.defs@[v].name@ == name@
                        ==> !self.is_read(v),
            decreases self.defs@.len() - i,
        {
            let d = &self.defs[i];
            if d.func == func && d.name == *name && !self.is_never_read(VarId(i as u32)) {
                return true;
            }
            i = i + 1;
        }
        false
    }

    /// Registers what one event reads or defines.
    fn register(&mut self, func: FuncId, ev: Event)
        requires
            old(self).wf(),
            old(self).defs@.len() < u32::MAX,
            old(self).uses@.len() < u32::MAX,
        ensures
            final(self).wf(),
            final(self).trace() == after(old(self).trace(), old(self).global_vars@, func, ev),
            final(self).live_in == old(self).live_in,
            final(self).global_vars == old(self).global_vars,
    {
        match ev {
            Event::Use { name, at } => {
                if let Some(v) = self.lookup(func, name) {
                    self.add_use(v, at, func);
                }
            },
            Event::Def { name, stmt, is_mutable } => {
                self.add_def(name, stmt, func, is_mutable);
            },
            Event::Assign { name, stmt } => {
                if !self.global_vars.contains(name.as_str()) {
                    self.add_def(name, stmt, func, true);
                }
            },
        }
    }

    /// Registers what the events read and define, in order.
    fn register_all(&mut self, func: FuncId, evs: &Vec<Event>)
        requires
            old(self).wf(),
            old(self).defs@.len() + evs@.len() <= u32::MAX,
            old(self).uses@.len() + evs@.len() <= u32::MAX,
        ensures
            final(self).wf(),
            final(self).trace() == after_all(old(self).trace(), old(self).global_vars@, func, evs@),
            final(self).defs@.len() <= old(self).defs@.len() + evs@.len(),
            final(self).uses@.len() <= old(self).uses@.len() + evs@.len(),
            final(self).live_in == old(self).live_in,
            final(self).global_vars == old(self).global_vars,
    {
        let ghost first = *self;
        let mut i: usize = 0;
        assert(evs@.take(0) =~= seq![]);
        while i < evs.len()
            invariant
                self.wf(),
                i <= evs@.len(),
                first.defs@.len() + evs@.len() <= u32::MAX,
                first.uses@.len() + evs@.len() <= u32::MAX,
                self.trace() == after_all(first.trace(), first.global_vars@, func, evs@.take(i as int)),
                self.defs@.len() <= first.defs@.len() + i,
                self.uses@.len() <= first.uses@.len() + i,
                self.live_in == first.live_in,
                self.global_vars == first.global_vars,
            decreases evs@.len() - i,
        {
            assert(evs@.take(i + 1).drop_last() =~= evs@.take(i as int));
            self.register(func, evs[i]);
            i = i + 1;
        }
        assert(evs@.take(i as int) =~= evs@);
    }
}

/// The events of a function.
fn collect_fun<'a>(f: &'a FunDecl) -> (evs: Vec<Event<'a>>)
    ensures
        evs@ == fun_events(*f),
{
    let mut evs: Vec<Event<'a>> = Vec::new();
    let mut i: usize = 0;
    while i < f.params.len()
        invariant
            i <= f.params@.len(),
            evs@ =~= param_events(f.params@.take(i as int)),
        decreases f.params@.len() - i,
    {
        evs.push(Event::Def { name: &f.params[i].name, stmt: StmtId(NO_STMT), is_mutable: false });
        i = i + 1;
    }
    assert(f.params@.take(i as int) =~= f.params@);
    collect_def_use(&mut evs, Spot::Piece(Piece::Expr(&f.body)));
    evs
}

/// The variables of the module.
pub fn collect_globals(module: &Module) -> (names: NameSet)
    ensures
        names@ == globals(*module),
{
    let mut names = NameSet::new();
    let mut i: usize = 0;
    while i < module.declarations.len()
        invariant
            i <= module.declarations@.len(),
            names@ == globals_upto(*module, i as int),
        decreases module.declarations@.len() - i,
    {
        if let Decl::Expr { stmt: Some(s) } = &module.declarations[i] {
            match &s.kind {
                StmtKind::VarDecl { name, .. } | StmtKind::ValDecl { name, .. } => {
                    names.insert(name.clone());
                },
                _ => {},
            }
        }
        i = i + 1;
    }
    names
}

/// Whether the module's declarations, definitions and uses can be numbered.
pub fn is_numberable(module: &Module) -> (r: bool)
    ensures
        r == numberable(*module),
{
    if module.declarations.len() > 0xFFFF_FFFF {
        return false;
    }
    let mut total: usize = 0;
    let mut i: usize = 0;
    while i < module.declarations.len()
        invariant
            i <= module.declarations@.len() <= u32::MAX,
            total == event_count(*module, i as int),
            total <= u32::MAX,
        decreases module.declarations@.len() - i,
    {
        if let Decl::Fun(f) = &module.declarations[i] {
            let n: usize = collect_fun(f).len();
            if n > 0xFFFF_FFFF - total {
                proof {
                    lemma_event_count_grows(*module, i + 1, module.declarations@.len() as int);
                }
                return false;
            }
            total = total + n;
        }
        i = i + 1;
    }
    true
}

proof fn lemma_event_count_grows(m: Module, j: int, k: int)
    requires
        0 <= j <= k <= m.declarations@.len(),
    ensures
        event_count(m, j) <= event_count(m, k),
    decreases k - j,
{
    if j < k {
        lemma_event_count_grows(m, j, k - 1);
    }
}

/// The definitions and uses of the module's functions.
pub fn build_def_use(module: &Module) -> (graph: DefUseGraph)
    requires
        numberable(*module),
    ensures
        graph.wf(),
        graph.trace() == trace(*module),
        graph.global_vars@ == globals(*module),
        entries_upto(graph.live_in@, *module, module.declarations@.len() as int),
{
    let mut graph = DefUseGraph::new();
    graph.global_vars = collect_globals(module);
    let ghost names = globals(*module);
    assert(entries_upto(graph.live_in@, *module, 0));
    assert(graph.trace().defs =~= trace_upto(*module, 0).defs);
    assert(graph.trace().uses =~= trace_upto(*module, 0).uses);
    let mut idx: usize = 0;
    while idx < module.declarations.len()
        invariant
            graph.wf(),
            idx <= module.declarations@.len() <= u32::MAX,
            event_count(*module, module.declarations@.len() as int) <= u32::MAX,
            names == globals(*module),
            graph.global_vars@ == names,
            graph.trace() == trace_upto(*module, idx as int),
            graph.defs@.len() <= event_count(*module, idx as int),
            graph.uses@.len() <= event_count(*module, idx as int),
            entries_upto(graph.live_in@, *module, idx as int),
        decreases module.declarations@.len() - idx,
    {
        let ghost live = graph.live_in@;
        proof {
            lemma_event_count_grows(*module, idx + 1, module.declarations@.len() as int);
        }
        if let Decl::Fun(f) = &module.declarations[idx] {
            let func = FuncId(idx as u32);
            let evs = collect_fun(f);
            let start: usize = graph.defs.len();
            assert(f.params@.len() <= evs@.len());
            let mut entry: Vec<VarId> = Vec::new();
            let mut i: usize = 0;
            while i < f.params.len()
                invariant
                    i <= f.params@.len(),
                    start + f.params@.len() <= u32::MAX,
                    entry@ =~= Seq::new(i as nat, |j: int| VarId((start + j) as u32)),
                decreases f.params@.len() - i,
            {
                entry.push(VarId((start + i) as u32));
                i = i + 1;
            }
            assert(entry@ =~= entry_vars(*module, idx as int)->0);
            let ghost before = graph;
            graph.register_all(func, &evs);
            proof {
                assert(fun_events(*f).take(f.params@.len() as int) =~= param_events(f.params@));
                lemma_param_defs(before.trace(), names, func, f.params@, fun_events(*f));
            }
            graph.live_in.put(func.0, entry);
            assert(entries_defined(graph.live_in@, graph.defs@)) by {
                assert forall|g: u32, i: int|
                    graph.live_in@.contains_key(g) && 0 <= i < graph.live_in@[g]@.len() implies (
                #[trigger] graph.live_in@[g]@[i]).0 < graph.defs@.len() && graph.defs@[graph.live_in@[g]@[i].0 as int].func
                    == FuncId(g) by {
                    if g != func.0 {
                        let v = before.live_in@[g]@[i];
                        assert(v.0 < before.defs@.len());
                        assert(graph.defs@.take(before.defs@.len() as int)[v.0 as int] == before.defs@[v.0 as int]);
                    } else {
                        assert(graph.defs@[start + i].func == func);
                    }
                }
            }
        }
        idx = idx + 1;
        assert forall|j: u32| #[trigger] entry_ok(graph.live_in@, *module, idx as int, j) by {
            assert(entry_ok(live, *module, idx - 1, j));
        }
    }
    graph
}

/// The definition that a parameter makes.
pub open spec fn param_def(func: FuncId, param: Param) -> DefNode {
    DefNode { name: param.name, stmt: StmtId(NO_STMT), func, is_mutable: false }
}

proof fn lemma_defs_grow(t: Trace, globals: Set<Seq<char>>, func: FuncId, evs: Seq<Event>)
    ensures
        ({
            let r = after_all(t, globals, func, evs);
            r.defs.len() >= t.defs.len() && r.defs.take(t.defs.len() as int) == t.defs
        }),
    decreases evs.len(),
{
    if evs.len() > 0 {
        lemma_defs_grow(t, globals, func, evs.drop_last());
        let m = after_all(t, globals, func, evs.drop_last());
        let r = after_all(t, globals, func, evs);
        assert(r.defs.take(t.defs.len() as int) =~= m.defs.take(t.defs.len() as int));
    } else {
        assert(t.defs.take(t.defs.len() as int) =~= t.defs);
    }
}

/// A function's parameters are the first that it defines.
proof fn lemma_param_defs(t: Trace, globals: Set<Seq<char>>, func: FuncId, params: Seq<Param>, evs: Seq<Event>)
    requires
        evs.len() >= params.len(),
        evs.take(params.len() as int) == param_events(params),
    ensures
        ({
            let r = after_all(t, globals, func, evs);
            &&& r.defs.len() >= t.defs.len() + params.len()
            &&& r.defs.take(t.defs.len() as int) == t.defs
            &&& forall|i: int|
                0 <= i < params.len() ==> #[trigger] r.defs[t.defs.len() + i] == param_def(func, params[i])
        }),
    decreases evs.len(),
{
    lemma_defs_grow(t, globals, func, evs);
    let r = after_all(t, globals, func, evs);
    if evs.len() > params.len() {
        assert(evs.drop_last().take(params.len() as int) =~= evs.take(params.len() as int));
        lemma_param_defs(t, globals, func, params, evs.drop_last());
        let m = after_all(t, globals, func, evs.drop_last());
        assert forall|i: int| 0 <= i < params.len() implies #[trigger] r.defs[t.defs.len() + i] == param_def(
            func,
            params[i],
        ) by {
            assert(m.defs[t.defs.len() + i] == param_def(func, params[i]));
        }
    } else if params.len() > 0 {
        let fewer = params.drop_last();
        assert(evs.take(params.len() as int) =~= evs);
        assert(evs.drop_last().take(fewer.len() as int) =~= param_events(fewer));
        lemma_param_defs(t, globals, func, fewer, evs.drop_last());
        let m = after_all(t, globals, func, evs.drop_last());
        lemma_params_only(t, globals, func, fewer);
        assert(evs.drop_last() =~= param_events(fewer));
        assert(evs.last() == param_events(params)[params.len() - 1]);
        assert forall|i: int| 0 <= i < params.len() implies #[trigger] r.defs[t.defs.len() + i] == param_def(
            func,
            params[i],
        ) by {
            if i < fewer.len() {
                assert(m.defs[t.defs.len() + i] == param_def(func, fewer[i]));
            }
        }
    }
}

proof fn lemma_params_only(t: Trace, globals: Set<Seq<char>>, func: FuncId, params: Seq<Param>)
    ensures
        after_all(t, globals, func, param_events(params)).defs.len() == t.defs.len() + params.len(),
    decreases params.len(),
{
    if params.len() > 0 {
        let evs = param_events(params);
        assert(evs.drop_last() =~= param_events(params.drop_last()));
        lemma_params_only(t, globals, func, params.drop_last());
        assert(evs.last() == param_events(params)[params.len() - 1]);
    }
}

/// What is known on entry to a function are the definitions of its parameters.
pub proof fn law_entries_are_parameters(m: Module, k: int, i: int)
    requires
        numberable(m),
        0 <= k < m.declarations@.len(),
        entry_vars(m, k) is Some,
        0 <= i < entry_vars(m, k)->0.len(),
    ensures
        m.declarations@[k] is Fun,
        ({
            let v = entry_vars(m, k)->0[i];
            &&& v.0 < trace(m).defs.len()
            &&& trace(m).defs[v.0 as int] == param_def(FuncId(k as u32), m.declarations@[k]->Fun_0.params@[i])
        }),
{
    let f = m.declarations@[k]->Fun_0;
    let n = m.declarations@.len() as int;
    let t = trace_upto(m, k);
    assert(fun_events(f).take(f.params@.len() as int) =~= param_events(f.params@));
    lemma_param_defs(t, globals(m), FuncId(k as u32), f.params@, fun_events(f));
    law_uses_see_definitions(m, k + 1);
    lemma_event_count_grows(m, k + 1, n);
    let r = trace_upto(m, k + 1);
    assert(r.defs[t.defs.len() + i] == param_def(FuncId(k as u32), f.params@[i]));
    lemma_later_defs(m, k + 1, n);
    assert(trace(m).defs.take(r.defs.len() as int)[t.defs.len() + i] == r.defs[t.defs.len() + i]);
}

proof fn lemma_later_defs(m: Module, j: int, k: int)
    requires
        0 <= j <= k <= m.declarations@.len(),
    ensures
        trace_upto(m, k).defs.len() >= trace_upto(m, j).defs.len(),
        trace_upto(m, k).defs.take(trace_upto(m, j).defs.len() as int) == trace_upto(m, j).defs,
    decreases k - j,
{
    let a = trace_upto(m, j).defs;
    if j < k {
        lemma_later_defs(m, j, k - 1);
        let b = trace_upto(m, k - 1).defs;
        let c = trace_upto(m, k).defs;
        match m.declarations@[k - 1] {
            Decl::Fun(f) => {
                lemma_defs_grow(trace_upto(m, k - 1), globals(m), FuncId((k - 1) as u32), fun_events(f));
                assert(c.take(a.len() as int) =~= c.take(b.len() as int).take(a.len() as int));
            },
            _ => {},
        }
    } else {
        assert(a.take(a.len() as int) =~= a);
    }
}

proof fn lemma_trace_sound(t: Trace, globals: Set<Seq<char>>, func: FuncId, evs: Seq<Event>)
    requires
        t.defs.len() + evs.len() <= u32::MAX,
        forall|i: int| 0 <= i < t.uses.len() ==> use_sees_def(t, #[trigger] t.uses[i]),
    ensures
        ({
            let r = after_all(t, globals, func, evs);
            &&& r.defs.len() <= t.defs.len() + evs.len()
            &&& forall|i: int| 0 <= i < r.uses.len() ==> use_sees_def(r, #[trigger] r.uses[i])
        }),
    decreases evs.len(),
{
    if evs.len() > 0 {
        lemma_trace_sound(t, globals, func, evs.drop_last());
        let m = after_all(t, globals, func, evs.drop_last());
        let r = after_all(t, globals, func, evs);
        match evs.last() {
            Event::Use { name, at } => {
                lemma_last_def(m.defs, func, name@);
            },
            _ => {},
        }
        assert forall|i: int| 0 <= i < r.uses.len() implies use_sees_def(r, #[trigger] r.uses[i]) by {
            if i < m.uses.len() {
                assert(use_sees_def(m, m.uses[i]));
            }
        }
    }
}

/// The use reads a definition of its own function.
pub open spec fn use_sees_def(t: Trace, u: UseNode) -> bool {
    u.var.0 < t.defs.len() && t.defs[u.var.0 as int].func == u.func
}

/// Each read of a variable sees a definition of the function that it stands in.
pub proof fn law_uses_see_definitions(m: Module, k: int)
    requires
        numberable(m),
        0 <= k <= m.declarations@.len(),
    ensures
        trace_upto(m, k).defs.len() <= event_count(m, k),
        forall|i: int|
            0 <= i < trace_upto(m, k).uses.len() ==> use_sees_def(trace_upto(m, k), #[trigger] trace_upto(m, k).uses[i]),
    decreases k,
{
    if k > 0 {
        law_uses_see_definitions(m, k - 1);
        lemma_event_count_grows(m, k, m.declarations@.len() as int);
        match m.declarations@[k - 1] {
            Decl::Fun(f) => {
                lemma_trace_sound(trace_upto(m, k - 1), globals(m), FuncId((k - 1) as u32), fun_events(f));
            },
            _ => {},
        }
    }
}

/// The definition that a read sees is the last one of the name in the function;
/// it sees none exactly where there is none.
pub proof fn law_the_last_definition_counts(defs: Seq<DefNode>, func: FuncId, name: Seq<char>)
    requires
        defs.len() <= u32::MAX,
    ensures
        match last_def(defs, func, name) {
            Some(v) => {
                &&& v.0 < defs.len()
                &&& defs[v.0 as int].func == func && defs[v.0 as int].name@ == name
                &&& forall|j: int| v.0 < j < defs.len() ==> (#[trigger] defs[j]).func != func || defs[j].name@ != name
            },
            None => forall|j: int| 0 <= j < defs.len() ==> (#[trigger] defs[j]).func != func || defs[j].name@ != name,
        },
    decreases defs.len(),
{
    if defs.len() > 0 {
        let r = defs.drop_last();
        law_the_last_definition_counts(r, func, name);
        if !(defs.last().func == func && defs.last().name@ == name) {
            assert forall|j: int|
                0 <= j < defs.len() && (last_def(defs, func, name) matches Some(v) ==> v.0 < j) implies (
            #[trigger] defs[j]).func != func || defs[j].name@ != name by {
                if j < r.len() {
                    assert(r[j] == defs[j]);
                }
            }
        }
    }
}

/// A read of a variable is recorded with the latest definition of that name in
/// the function, and changes nothing else.
pub proof fn law_reads_see_the_latest_definition(
    t: Trace,
    globals: Set<Seq<char>>,
    func: FuncId,
    name: &String,
    at: ExprId,
    v: u32,
)
    requires
        v < t.defs.len() <= u32::MAX,
        t.defs[v as int].func == func,
        t.defs[v as int].name@ == name@,
        forall|j: int| v < j < t.defs.len() ==> (#[trigger] t.defs[j]).func != func || t.defs[j].name@ != name@,
    ensures
        after(t, globals, func, Event::Use { name, at }).uses == t.uses.push(
            UseNode { var: VarId(v), expr: at, func },
        ),
        after(t, globals, func, Event::Use { name, at }).defs == t.defs,
{
    law_the_last_definition_counts(t.defs, func, name@);
    assert(t.defs[v as int].func == func);
}

/// A declaration adds a definition. An assignment adds a mutable one, unless the
/// variable is one of the module; neither adds a use.
pub proof fn law_definitions_are_recorded(
    t: Trace,
    globals: Set<Seq<char>>,
    func: FuncId,
    name: &String,
    stmt: StmtId,
    is_mutable: bool,
)
    ensures
        ({
            let d = after(t, globals, func, Event::Def { name, stmt, is_mutable });
            d.uses == t.uses && d.defs == t.defs.push(DefNode { name: *name, stmt, func, is_mutable })
        }),
        ({
            let d = after(t, globals, func, Event::Assign { name, stmt });
            &&& d.uses == t.uses
            &&& !globals.contains(name@) ==> d.defs == t.defs.push(DefNode { name: *name, stmt, func, is_mutable: true })
            &&& globals.contains(name@) ==> d.defs == t.defs
        }),
{
}

/// The variables of the module are those that its top-level declarations make.
pub proof fn law_top_level_variables_are_global(m: Module, name: Seq<char>)
    ensures
        globals(m).contains(name) <==> exists|i: int|
            0 <= i < m.declarations@.len() && (#[trigger] m.declarations@[i] matches Decl::Expr { stmt: Some(s) } && match s.kind {
                StmtKind::VarDecl { name: n, .. } | StmtKind::ValDecl { name: n, .. } => n@ == name,
                _ => false,
            }),
{
    let n = m.declarations@.len() as int;
    lemma_globals(m, n, name);
    if globals(m).contains(name) {
        let i = choose|i: int| 0 <= i < n && global_name(#[trigger] m.declarations@[i]) == Some(name);
        let d = m.declarations@[i];
        assert(d matches Decl::Expr { stmt: Some(s) } && match s.kind {
            StmtKind::VarDecl { name: n, .. } | StmtKind::ValDecl { name: n, .. } => n@ == name,
            _ => false,
        });
    }
    if exists|i: int|
        0 <= i < m.declarations@.len() && (#[trigger] m.declarations@[i] matches Decl::Expr { stmt: Some(s) } && match s.kind {
            StmtKind::VarDecl { name: n, .. } | StmtKind::ValDecl { name: n, .. } => n@ == name,
            _ => false,
        }) {
        let i = choose|i: int|
            0 <= i < m.declarations@.len() && (#[trigger] m.declarations@[i] matches Decl::Expr { stmt: Some(s) } && match s.kind {
                StmtKind::VarDecl { name: n, .. } | StmtKind::ValDecl { name: n, .. } => n@ == name,
                _ => false,
            });
        assert(global_name(m.declarations@[i]) == Some(name));
    }
}

proof fn lemma_globals(m: Module, k: int, name: Seq<char>)
    requires
        0 <= k <= m.declarations@.len(),
    ensures
        globals_upto(m, k).contains(name) <==> exists|i: int|
            0 <= i < k && global_name(#[trigger] m.declarations@[i]) == Some(name),
    decreases k,
{
    if k > 0 {
        lemma_globals(m, k - 1, name);
        if global_name(m.declarations@[k - 1]) == Some(name) {
            assert(global_name(m.declarations@[k - 1]) == Some(name));
        }
    }
}

/// The uses of a definition are those that read it, each once and in order.
pub proof fn law_uses_are_listed_with_their_definition(uses: Seq<UseNode>, var: VarId, k: u32)
    requires
        uses.len() <= u32::MAX,
    ensures
        uses_of(uses, var).contains(UseId(k)) <==> k < uses.len() && uses[k as int].var == var,
        forall|i: int, j: int|
            0 <= i < j < uses_of(uses, var).len() ==> (#[trigger] uses_of(uses, var)[i]).0 < (#[trigger] uses_of(
                uses,
                var,
            )[j]).0,
    decreases uses.len(),
{
    lemma_uses_below(uses, var);
    if uses.len() > 0 {
        let r = uses.drop_last();
        law_uses_are_listed_with_their_definition(r, var, k);
        lemma_uses_below(r, var);
        let p = uses_of(r, var);
        let l = UseId((uses.len() - 1) as u32);
        if uses.last().var == var {
            let all = p.push(l);
            assert(all[p.len() as int] == l);
            if p.contains(UseId(k)) {
                let i = choose|i: int| 0 <= i < p.len() && p[i] == UseId(k);
                assert(all[i] == UseId(k));
            }
            if all.contains(UseId(k)) {
                let i = choose|i: int| 0 <= i < all.len() && all[i] == UseId(k);
                if i < p.len() {
                    assert(p[i] == UseId(k));
                }
            }
        }
        if k < r.len() {
            assert(r[k as int] == uses[k as int]);
        }
    }
}

proof fn lemma_uses_below(uses: Seq<UseNode>, var: VarId)
    requires
        uses.len() <= u32::MAX,
    ensures
        forall|i: int| 0 <= i < uses_of(uses, var).len() ==> (#[trigger] uses_of(uses, var)[i]).0 < uses.len(),
    decreases uses.len(),
{
    if uses.len() > 0 {
        lemma_uses_below(uses.drop_last(), var);
        let p = uses_of(uses.drop_last(), var);
        let all = uses_of(uses, var);
        assert forall|i: int| 0 <= i < all.len() implies (#[trigger] all[i]).0 < uses.len() by {
            if i < p.len() {
                assert(all[i] == p[i]);
            }
        }
    }
}

} // verus!
