//! The functions of a module: those that it declares, and the methods of its
//! types that have a body.

use super::tables::FuncId;
use crate::ast::tree::{Decl, Expr, FunDecl, Method, Module, Param, TypeDecl, Visibility};
use crate::fx::{NameMap, Table};
use crate::names::{full_name, mangle};
use vstd::prelude::*;

verus! {

/// Where a method stands: its type's declaration, and its place in the type.
#[derive(Debug, Clone, Copy, PartialEq, Eq, Structural)]
pub struct MethodLoc {
    pub decl: usize,
    pub method: usize,
}

/// Whether a function is a declaration of the module or a method of a type.
#[derive(Debug, Clone, Copy)]
pub enum FuncKind<'a> {
    Fun(usize),
    Method(&'a String, usize),
}

/// What a module says of a function.
#[derive(Debug, Clone, Copy)]
pub struct FuncMetaRef<'a> {
    pub name: &'a String,
    pub params: &'a Vec<Param>,
    pub body: &'a Expr,
    pub is_async: bool,
    pub visibility: Visibility,
    pub is_entry: bool,
    /// The type of a method.
    pub self_type: Option<&'a String>,
    pub func_kind: FuncKind<'a>,
}

// ---- numbering -------------------------------------------------------------

/// The functions among the first `k` declarations.
pub open spec fn declared(m: Module, k: int) -> Seq<FuncId>
    decreases k,
{
    if k <= 0 {
        seq![]
    } else if m.declarations@[k - 1] is Fun {
        declared(m, k - 1).push(FuncId((k - 1) as u32))
    } else {
        declared(m, k - 1)
    }
}

/// The methods with a body among the first `k` of the type that declaration
/// `d` makes.
pub open spec fn bodied(ms: Seq<Method>, d: int, k: int) -> Seq<MethodLoc>
    decreases k,
{
    if k <= 0 {
        seq![]
    } else if ms[k - 1].body is Some {
        bodied(ms, d, k - 1).push(MethodLoc { decl: d as usize, method: (k - 1) as usize })
    } else {
        bodied(ms, d, k - 1)
    }
}

/// The methods with a body of the types among the first `d` declarations.
pub open spec fn method_locs(m: Module, d: int) -> Seq<MethodLoc>
    decreases d,
{
    if d <= 0 {
        seq![]
    } else {
        method_locs(m, d - 1) + match m.declarations@[d - 1] {
            Decl::Type(t) => bodied(t.methods@, d - 1, t.methods@.len() as int),
            _ => seq![],
        }
    }
}

pub open spec fn all_locs(m: Module) -> Seq<MethodLoc> {
    method_locs(m, m.declarations@.len() as int)
}

/// The functions of the module can be numbered.
pub open spec fn functions_fit(m: Module) -> bool {
    m.declarations@.len() + all_locs(m).len() <= u32::MAX
}

/// The number of the `i`-th method.
pub open spec fn method_id(m: Module, i: int) -> FuncId {
    FuncId((m.declarations@.len() + i) as u32)
}

pub open spec fn method_ids(m: Module, n: int) -> Seq<FuncId> {
    Seq::new(n as nat, |i: int| method_id(m, i))
}

/// The functions of the module: the declared ones, then the methods.
pub open spec fn func_ids(m: Module) -> Seq<FuncId> {
    declared(m, m.declarations@.len() as int) + method_ids(m, all_locs(m).len() as int)
}

/// Where the methods with a number stand.
pub open spec fn loc_map(m: Module, locs: Seq<MethodLoc>) -> Map<u32, MethodLoc> {
    Map::new(
        |f: u32| m.declarations@.len() <= f < m.declarations@.len() + locs.len(),
        |f: u32| locs[f - m.declarations@.len()],
    )
}

/// The names of the functions among the first `k` declarations.
pub open spec fn declared_names(m: Module, k: int) -> Map<Seq<char>, u32>
    decreases k,
{
    if k <= 0 {
        Map::empty()
    } else {
        match m.declarations@[k - 1] {
            Decl::Fun(f) => declared_names(m, k - 1).insert(f.name@, (k - 1) as u32),
            _ => declared_names(m, k - 1),
        }
    }
}

/// The full name of the method there.
pub open spec fn loc_name(m: Module, loc: MethodLoc) -> Seq<char> {
    match m.declarations@[loc.decl as int] {
        Decl::Type(t) => full_name(t.name@, t.methods@[loc.method as int].name@),
        _ => seq![],
    }
}

/// The names of the declared functions and of the first `n` methods; where two
/// have one name, that of the later one.
pub open spec fn names_upto(m: Module, n: int) -> Map<Seq<char>, u32>
    decreases n,
{
    if n <= 0 {
        declared_names(m, m.declarations@.len() as int)
    } else {
        names_upto(m, n - 1).insert(loc_name(m, all_locs(m)[n - 1]), method_id(m, n - 1).0)
    }
}

/// Function numbers by name.
pub open spec fn func_names(m: Module) -> Map<Seq<char>, u32> {
    names_upto(m, all_locs(m).len() as int)
}

// ---- what the module says of a function ------------------------------------

pub open spec fn fun_meta<'a>(f: FunDecl, idx: usize) -> FuncMetaRef<'a> {
    FuncMetaRef {
        name: &f.name,
        params: &f.params,
        body: &f.body,
        is_async: f.is_async,
        visibility: f.visibility,
        is_entry: f.is_entry,
        self_type: None,
        func_kind: FuncKind::Fun(idx),
    }
}

pub open spec fn method_meta<'a>(t: TypeDecl, idx: usize) -> Option<FuncMetaRef<'a>> {
    if idx < t.methods@.len() {
        let f = t.methods@[idx as int];
        match f.body {
            Some(body) => Some(
                FuncMetaRef {
                    name: &f.name,
                    params: &f.params,
                    body: &body,
                    is_async: f.is_async,
                    visibility: f.visibility,
                    is_entry: false,
                    self_type: Some(&t.name),
                    func_kind: FuncKind::Method(&t.name, idx),
                },
            ),
            None => None,
        }
    } else {
        None
    }
}

/// What the module says of a function, given where the methods stand.
pub open spec fn meta_of<'a>(locs: Map<u32, MethodLoc>, m: Module, f: FuncId) -> Option<FuncMetaRef<'a>> {
    if locs.contains_key(f.0) {
        let loc = locs[f.0];
        if loc.decl < m.declarations@.len() {
            match m.declarations@[loc.decl as int] {
                Decl::Type(t) => method_meta(t, loc.method),
                _ => None,
            }
        } else {
            None
        }
    } else if f.0 < m.declarations@.len() {
        match m.declarations@[f.0 as int] {
            Decl::Fun(d) => Some(fun_meta(d, f.0 as usize)),
            _ => None,
        }
    } else {
        None
    }
}

/// The functions among `nodes` of which the module says something.
pub open spec fn metas_of<'a>(locs: Map<u32, MethodLoc>, m: Module, nodes: Seq<FuncId>) -> Seq<(FuncId, FuncMetaRef<'a>)>
    decreases nodes.len(),
{
    if nodes.len() == 0 {
        seq![]
    } else {
        let rest = metas_of(locs, m, nodes.drop_last());
        match meta_of(locs, m, nodes.last()) {
            Some(meta) => rest.push((nodes.last(), meta)),
            None => rest,
        }
    }
}

pub fn func_meta<'a>(locs: &Table<MethodLoc>, module: &'a Module, func: FuncId) -> (r: Option<FuncMetaRef<'a>>)
    ensures
        r == meta_of(locs@, *module, func),
{
    match locs.get(func.0) {
        Some(loc) => {
            if loc.decl < module.declarations.len() {
                if let Decl::Type(t) = &module.declarations[loc.decl] {
                    if loc.method < t.methods.len() {
                        let f = &t.methods[loc.method];
                        if let Some(body) = &f.body {
                            return Some(
                                FuncMetaRef {
                                    name: &f.name,
                                    params: &f.params,
                                    body,
                                    is_async: f.is_async,
                                    visibility: f.visibility,
                                    is_entry: false,
                                    self_type: Some(&t.name),
                                    func_kind: FuncKind::Method(&t.name, loc.method),
                                },
                            );
                        }
                    }
                }
            }
            None
        },
        None => {
            if (func.0 as usize) < module.declarations.len() {
                if let Decl::Fun(f) = &module.declarations[func.0 as usize] {
                    return Some(
                        FuncMetaRef {
                            name: &f.name,
                            params: &f.params,
                            body: &f.body,
                            is_async: f.is_async,
                            visibility: f.visibility,
                            is_entry: f.is_entry,
                            self_type: None,
                            func_kind: FuncKind::Fun(func.0 as usize),
                        },
                    );
                }
            }
            None
        },
    }
}

pub fn func_metas<'a>(locs: &Table<MethodLoc>, module: &'a Module, nodes: &Vec<FuncId>) -> (r: Vec<
    (FuncId, FuncMetaRef<'a>),
>)
    ensures
        r@ == metas_of(locs@, *module, nodes@),
{
    let mut r: Vec<(FuncId, FuncMetaRef<'a>)> = Vec::new();
    let mut i: usize = 0;
    assert(nodes@.take(0) =~= seq![]);
    while i < nodes.len()
        invariant
            i <= nodes@.len(),
            r@ == metas_of(locs@, *module, nodes@.take(i as int)),
        decreases nodes@.len() - i,
    {
        assert(nodes@.take(i + 1).drop_last() =~= nodes@.take(i as int));
        if let Some(meta) = func_meta(locs, module, nodes[i]) {
            r.push((nodes[i], meta));
        }
        i = i + 1;
    }
    assert(nodes@.take(i as int) =~= nodes@);
    r
}

// ---- listing the functions -------------------------------------------------

/// The functions of a module, by number and by name.
#[derive(Debug)]
pub struct Functions {
    pub nodes: Vec<FuncId>,
    pub locs: Table<MethodLoc>,
    pub names: NameMap,
}

impl Functions {
    pub open spec fn of(self, m: Module) -> bool {
        &&& self.nodes@ == func_ids(m)
        &&& self.locs.wf()
        &&& self.locs@ == loc_map(m, all_locs(m))
        &&& self.names@ == func_names(m)
    }
}

fn push_bodied(out: &mut Vec<MethodLoc>, ms: &Vec<Method>, d: usize)
    ensures
        final(out)@ == old(out)@ + bodied(ms@, d as int, ms@.len() as int),
{
    let mut k: usize = 0;
    assert(out@ =~= old(out)@ + bodied(ms@, d as int, 0));
    while k < ms.len()
        invariant
            k <= ms@.len(),
            out@ == old(out)@ + bodied(ms@, d as int, k as int),
        decreases ms@.len() - k,
    {
        if ms[k].body.is_some() {
            out.push(MethodLoc { decl: d, method: k });
        }
        k = k + 1;
        assert(out@ =~= old(out)@ + bodied(ms@, d as int, k as int));
    }
}

/// The methods of the module that have a body.
fn list_methods(module: &Module) -> (locs: Vec<MethodLoc>)
    ensures
        locs@ == all_locs(*module),
{
    let mut locs: Vec<MethodLoc> = Vec::new();
    let mut d: usize = 0;
    while d < module.declarations.len()
        invariant
            d <= module.declarations@.len(),
            locs@ == method_locs(*module, d as int),
        decreases module.declarations@.len() - d,
    {
        if let Decl::Type(t) = &module.declarations[d] {
            push_bodied(&mut locs, &t.methods, d);
        }
        d = d + 1;
        assert(locs@ =~= method_locs(*module, d as int));
    }
    locs
}

/// Whether the functions of the module can be numbered.
pub fn do_functions_fit(module: &Module) -> (r: bool)
    ensures
        r == functions_fit(*module),
{
    let n: usize = module.declarations.len();
    let k: usize = list_methods(module).len();
    n <= 0xFFFF_FFFF && k <= 0xFFFF_FFFF - n
}

proof fn lemma_bodied(ms: Seq<Method>, d: int, k: int)
    requires
        0 <= k <= ms.len() <= usize::MAX,
    ensures
        forall|i: int|
            0 <= i < bodied(ms, d, k).len() ==> {
                let l = #[trigger] bodied(ms, d, k)[i];
                l.decl == d as usize && l.method < k && ms[l.method as int].body is Some
            },
    decreases k,
{
    if k > 0 {
        lemma_bodied(ms, d, k - 1);
    }
}

pub open spec fn is_loc(m: Module, l: MethodLoc) -> bool {
    &&& l.decl < m.declarations@.len()
    &&& m.declarations@[l.decl as int] matches Decl::Type(t) && l.method < t.methods@.len()
        && t.methods@[l.method as int].body is Some
}

proof fn lemma_method_locs(m: Module, d: int)
    requires
        0 <= d <= m.declarations@.len(),
    ensures
        forall|i: int| 0 <= i < method_locs(m, d).len() ==> is_loc(m, #[trigger] method_locs(m, d)[i]),
    decreases d,
{
    broadcast use vstd::std_specs::vec::axiom_spec_len;
    if d > 0 {
        lemma_method_locs(m, d - 1);
        let a = method_locs(m, d - 1);
        match m.declarations@[d - 1] {
            Decl::Type(t) => {
                assert(t.methods.len() <= usize::MAX);
                assert(m.declarations.len() <= usize::MAX);
                lemma_bodied(t.methods@, d - 1, t.methods@.len() as int);
                let b = bodied(t.methods@, d - 1, t.methods@.len() as int);
                assert forall|i: int| 0 <= i < method_locs(m, d).len() implies is_loc(
                    m,
                    #[trigger] method_locs(m, d)[i],
                ) by {
                    if i < a.len() {
                        assert(method_locs(m, d)[i] == a[i]);
                    } else {
                        assert(method_locs(m, d)[i] == b[i - a.len()]);
                    }
                }
            },
            _ => {
                assert(method_locs(m, d) =~= a);
            },
        }
    }
}

/// Numbers and names the functions of the module.
pub fn list_functions(module: &Module) -> (fs: Functions)
    requires
        functions_fit(*module),
    ensures
        fs.of(*module),
{
    let mut nodes: Vec<FuncId> = Vec::new();
    let mut names = NameMap::new();
    let count: usize = module.declarations.len();
    let mut idx: usize = 0;
    assert(names@ =~= declared_names(*module, 0));
    while idx < module.declarations.len()
        invariant
            idx <= module.declarations@.len() <= u32::MAX,
            nodes@ == declared(*module, idx as int),
            names@ == declared_names(*module, idx as int),
        decreases module.declarations@.len() - idx,
    {
        if let Decl::Fun(f) = &module.declarations[idx] {
            nodes.push(FuncId(idx as u32));
            names.insert(f.name.clone(), idx as u32);
        }
        idx = idx + 1;
    }
    let methods = list_methods(module);
    proof {
        lemma_method_locs(*module, count as int);
    }
    let mut locs: Table<MethodLoc> = Table::new();
    let mut i: usize = 0;
    let ghost first = nodes@;
    assert(nodes@ =~= first + method_ids(*module, 0));
    assert(locs@ =~= loc_map(*module, methods@.take(0)));
    while i < methods.len()
        invariant
            i <= methods@.len(),
            count == module.declarations@.len(),
            count + methods@.len() <= u32::MAX,
            methods@ == all_locs(*module),
            forall|k: int| 0 <= k < methods@.len() ==> is_loc(*module, #[trigger] methods@[k]),
            nodes@ == first + method_ids(*module, i as int),
            locs.wf(),
            locs@ == loc_map(*module, methods@.take(i as int)),
            names@ == names_upto(*module, i as int),
        decreases methods@.len() - i,
    {
        let loc = methods[i];
        assert(is_loc(*module, methods@[i as int]));
        let id: u32 = (count + i) as u32;
        nodes.push(FuncId(id));
        locs.put(id, loc);
        if let Decl::Type(t) = &module.declarations[loc.decl] {
            names.insert(mangle(&t.name, &t.methods[loc.method].name), id);
        }
        i = i + 1;
        assert(nodes@ =~= first + method_ids(*module, i as int));
        assert(locs@ =~= loc_map(*module, methods@.take(i as int)));
    }
    assert(methods@.take(i as int) =~= methods@);
    Functions { nodes, locs, names }
}

/// Each function of the module has its own number, and the module says
/// something of each of them.
pub proof fn law_functions_are_numbered(m: Module)
    requires
        functions_fit(m),
    ensures
        func_ids(m).no_duplicates(),
        forall|i: int|
            0 <= i < func_ids(m).len() ==> (#[trigger] meta_of(loc_map(m, all_locs(m)), m, func_ids(m)[i])) is Some,
{
    let n = m.declarations@.len() as int;
    lemma_declared(m, n);
    lemma_method_locs(m, n);
    let a = declared(m, n);
    let locs = loc_map(m, all_locs(m));
    assert forall|i: int| 0 <= i < func_ids(m).len() implies (#[trigger] meta_of(
        locs,
        m,
        func_ids(m)[i],
    )) is Some by {
        if i < a.len() {
            assert(func_ids(m)[i] == a[i]);
        } else {
            let f = func_ids(m)[i];
            assert(f == method_id(m, i - a.len()));
            assert(is_loc(m, all_locs(m)[i - a.len()]));
            assert(locs[f.0] == all_locs(m)[i - a.len()]);
        }
    }
    assert forall|i: int, j: int| 0 <= i < func_ids(m).len() && 0 <= j < func_ids(m).len() && i != j implies func_ids(
        m,
    )[i] != func_ids(m)[j] by {
        if i < a.len() {
            assert(func_ids(m)[i] == a[i]);
        }
        if j < a.len() {
            assert(func_ids(m)[j] == a[j]);
        }
    }
}

proof fn lemma_declared(m: Module, k: int)
    requires
        0 <= k <= m.declarations@.len() <= u32::MAX,
    ensures
        declared(m, k).no_duplicates(),
        forall|i: int|
            0 <= i < declared(m, k).len() ==> (#[trigger] declared(m, k)[i]).0 < k
                && m.declarations@[declared(m, k)[i].0 as int] is Fun,
    decreases k,
{
    if k > 0 {
        lemma_declared(m, k - 1);
    }
}

/// Every declared function is listed under the place of its declaration and
/// known by its name; so is every method with a body, behind the declarations.
pub proof fn law_every_function_is_listed(m: Module, d: int, k: int) -> (n: int)
    requires
        functions_fit(m),
        0 <= d < m.declarations@.len(),
        m.declarations@[d] is Fun || m.declarations@[d] is Type && 0 <= k < m.declarations@[d]->Type_0.methods@.len()
            && m.declarations@[d]->Type_0.methods@[k].body is Some,
    ensures
        m.declarations@[d] is Fun ==> n == d && func_names(m).contains_key(m.declarations@[d]->Fun_0.name@),
        m.declarations@[d] is Type ==> {
            let t = m.declarations@[d]->Type_0;
            &&& m.declarations@.len() <= n
            &&& loc_map(m, all_locs(m)).contains_key(n as u32)
            &&& loc_map(m, all_locs(m))[n as u32] == (MethodLoc { decl: d as usize, method: k as usize })
            &&& func_names(m).contains_key(full_name(t.name@, t.methods@[k].name@))
        },
        0 <= n <= u32::MAX,
        func_ids(m).contains(FuncId(n as u32)),
{
    let total = m.declarations@.len() as int;
    let a = declared(m, total);
    let b = method_ids(m, all_locs(m).len() as int);
    if m.declarations@[d] is Fun {
        lemma_declared_function(m, total, d);
        let i = choose|i: int| 0 <= i < a.len() && a[i] == FuncId(d as u32);
        assert((a + b)[i] == FuncId(d as u32));
        lemma_name_stays(m, all_locs(m).len() as int, m.declarations@[d]->Fun_0.name@);
        d
    } else {
        let t = m.declarations@[d]->Type_0;
        let loc = MethodLoc { decl: d as usize, method: k as usize };
        assert(t.methods@.len() == t.methods.len());
        assert((k as usize) as int == k && (d as usize) as int == d);
        lemma_bodied_method(t.methods@, d, t.methods@.len() as int, k);
        lemma_method_is_located(m, total, d, loc);
        let locs = all_locs(m);
        let i = choose|i: int| 0 <= i < locs.len() && locs[i] == loc;
        assert(b[i] == method_id(m, i));
        assert((a + b)[a.len() + i] == b[i]);
        lemma_method_name(m, locs.len() as int, i);
        assert(loc_name(m, loc) == full_name(t.name@, t.methods@[k].name@));
        total + i
    }
}

proof fn lemma_declared_function(m: Module, k: int, d: int)
    requires
        0 <= d < k <= m.declarations@.len(),
        m.declarations@[d] is Fun,
    ensures
        declared(m, k).contains(FuncId(d as u32)),
        declared_names(m, k).contains_key(m.declarations@[d]->Fun_0.name@),
    decreases k,
{
    let r = declared(m, k - 1);
    let x = FuncId(d as u32);
    if d < k - 1 {
        lemma_declared_function(m, k - 1, d);
        let i = choose|i: int| 0 <= i < r.len() && r[i] == x;
        assert(r.push(FuncId((k - 1) as u32))[i] == x);
    } else {
        assert(r.push(x)[r.len() as int] == x);
    }
}

proof fn lemma_name_stays(m: Module, n: int, name: Seq<char>)
    requires
        declared_names(m, m.declarations@.len() as int).contains_key(name),
    ensures
        names_upto(m, n).contains_key(name),
    decreases n,
{
    if n > 0 {
        lemma_name_stays(m, n - 1, name);
    }
}

proof fn lemma_method_name(m: Module, n: int, i: int)
    requires
        0 <= i < n,
    ensures
        names_upto(m, n).contains_key(loc_name(m, all_locs(m)[i])),
    decreases n,
{
    if i < n - 1 {
        lemma_method_name(m, n - 1, i);
    }
}

proof fn lemma_bodied_method(ms: Seq<Method>, d: int, n: int, k: int)
    requires
        0 <= k < n <= ms.len(),
        ms[k].body is Some,
    ensures
        bodied(ms, d, n).contains(MethodLoc { decl: d as usize, method: k as usize }),
    decreases n,
{
    let r = bodied(ms, d, n - 1);
    let x = MethodLoc { decl: d as usize, method: k as usize };
    if k < n - 1 {
        lemma_bodied_method(ms, d, n - 1, k);
        let i = choose|i: int| 0 <= i < r.len() && r[i] == x;
        assert(r.push(MethodLoc { decl: d as usize, method: (n - 1) as usize })[i] == x);
    } else {
        assert(r.push(x)[r.len() as int] == x);
    }
}

proof fn lemma_method_is_located(m: Module, n: int, d: int, x: MethodLoc)
    requires
        0 <= d < n <= m.declarations@.len(),
        m.declarations@[d] is Type,
        bodied(m.declarations@[d]->Type_0.methods@, d, m.declarations@[d]->Type_0.methods@.len() as int).contains(x),
    ensures
        method_locs(m, n).contains(x),
    decreases n,
{
    let a = method_locs(m, n - 1);
    let b = match m.declarations@[n - 1] {
        Decl::Type(t) => bodied(t.methods@, n - 1, t.methods@.len() as int),
        _ => seq![],
    };
    if d < n - 1 {
        lemma_method_is_located(m, n - 1, d, x);
        let i = choose|i: int| 0 <= i < a.len() && a[i] == x;
        assert((a + b)[i] == x);
    } else {
        let i = choose|i: int| 0 <= i < b.len() && b[i] == x;
        assert((a + b)[a.len() + i] == x);
    }
}

/// What is known of a declared function is what its declaration says; of a
/// method, what the type says of it.
pub proof fn law_functions_are_as_declared(m: Module, f: u32)
    ensures
        f < m.declarations@.len() && m.declarations@[f as int] is Fun ==> (meta_of(
            loc_map(m, all_locs(m)),
            m,
            FuncId(f),
        ) matches Some(meta) && {
            let d = m.declarations@[f as int]->Fun_0;
            &&& *meta.name == d.name && *meta.params == d.params && *meta.body == d.body
            &&& meta.is_async == d.is_async && meta.visibility == d.visibility && meta.is_entry == d.is_entry
            &&& meta.self_type is None
        }),
        loc_map(m, all_locs(m)).contains_key(f) ==> (meta_of(loc_map(m, all_locs(m)), m, FuncId(f)) matches Some(meta)
            ==> {
            let l = loc_map(m, all_locs(m))[f];
            let t = m.declarations@[l.decl as int]->Type_0;
            let x = t.methods@[l.method as int];
            &&& *meta.name == x.name && *meta.params == x.params && Some(*meta.body) == x.body
            &&& meta.is_async == x.is_async && meta.visibility == x.visibility && !meta.is_entry
            &&& meta.self_type is Some && *(meta.self_type->0) == t.name
        }),
{
}

} // verus!
