//! What type checking has found out about a module, as far as the analyses
//! read it.

use super::tree::{Expr, ExprId, ExprKind};
use crate::find::{first, lemma_first_at, lemma_first_none};
use crate::names::{full_name, mangle};
use vstd::prelude::*;

verus! {

/// What is known of an expression: the name of its type, and its value where
/// that is a constant truth value.
#[derive(Debug)]
pub struct ExprInfo {
    pub type_of: Option<String>,
    pub const_bool: Option<bool>,
}

#[derive(Debug)]
pub struct ExprEntry {
    pub module: String,
    pub expr: ExprId,
    pub info: ExprInfo,
}

#[derive(Debug)]
pub struct FuncSig {
    pub name: String,
    pub is_async: bool,
    pub is_throwing: bool,
}

#[derive(Debug, Clone, Copy, PartialEq, Eq, Structural)]
pub enum TypeDefKind {
    Adt,
    Record,
    Trait,
    Alias,
}

#[derive(Debug)]
pub struct TypeDef {
    pub name: String,
    pub kind: TypeDefKind,
    pub methods: Vec<FuncSig>,
    pub constructors: Vec<String>,
}

/// That a type implements a trait: the type, and the methods that the trait
/// takes from it.
#[derive(Debug)]
pub struct Witness {
    pub implementor: String,
    pub method_slots: Vec<String>,
}

#[derive(Debug)]
pub struct SemaResult {
    pub expr_types: Vec<ExprEntry>,
    pub func_sigs: Vec<FuncSig>,
    pub type_defs: Vec<TypeDef>,
    pub witnesses: Vec<Witness>,
}

pub open spec fn is_expr(module: Seq<char>, id: ExprId) -> spec_fn(ExprEntry) -> bool {
    |e: ExprEntry| e.module@ == module && e.expr == id
}

pub open spec fn is_sig(name: Seq<char>) -> spec_fn(FuncSig) -> bool {
    |f: FuncSig| f.name@ == name
}

pub open spec fn is_type(name: Seq<char>) -> spec_fn(TypeDef) -> bool {
    |t: TypeDef| t.name@ == name
}

/// Whether a call of the function may suspend or throw.
pub open spec fn is_effectful(sig: FuncSig) -> bool {
    sig.is_async || sig.is_throwing
}

impl SemaResult {
    pub open spec fn info_of(self, module: Seq<char>, id: ExprId) -> Option<ExprEntry> {
        first(self.expr_types@, is_expr(module, id))
    }

    /// The name of the expression's type.
    pub open spec fn type_of(self, module: Seq<char>, id: ExprId) -> Option<Seq<char>> {
        match self.info_of(module, id) {
            Some(e) => match e.info.type_of {
                Some(t) => Some(t@),
                None => None,
            },
            None => None,
        }
    }

    pub open spec fn const_of(self, module: Seq<char>, id: ExprId) -> Option<bool> {
        match self.info_of(module, id) {
            Some(e) => e.info.const_bool,
            None => None,
        }
    }

    pub open spec fn sig_of(self, name: Seq<char>) -> Option<FuncSig> {
        first(self.func_sigs@, is_sig(name))
    }

    pub open spec fn def_of(self, name: Seq<char>) -> Option<TypeDef> {
        first(self.type_defs@, is_type(name))
    }

    pub open spec fn method_of(self, owner: Seq<char>, method: Seq<char>) -> Option<FuncSig> {
        match self.def_of(owner) {
            Some(t) => first(t.methods@, is_sig(method)),
            None => None,
        }
    }

    /// Whether the function is known to suspend or throw.
    pub open spec fn effectful_fn(self, name: Seq<char>) -> bool {
        match self.sig_of(name) {
            Some(sig) => is_effectful(sig),
            None => false,
        }
    }

    /// Whether the method is known to suspend or throw.
    pub open spec fn effectful_method(self, owner: Seq<char>, method: Seq<char>) -> bool {
        match self.method_of(owner, method) {
            Some(sig) => is_effectful(sig),
            None => false,
        }
    }

    /// Whether a trait that the type implements takes the method from it.
    pub open spec fn is_trait_method(self, owner: Seq<char>, method: Seq<char>) -> bool {
        &&& self.def_of(owner) is Some
        &&& exists|i: int|
            0 <= i < self.witnesses@.len() && #[trigger] has_slot(self.witnesses@[i], owner, method)
    }

    pub fn expr_info(&self, module: &String, id: ExprId) -> (r: Option<&ExprInfo>)
        ensures
            match r {
                Some(i) => self.info_of(module@, id) is Some && self.info_of(module@, id)->0.info == *i,
                None => self.info_of(module@, id) is None,
            },
    {
        let mut i: usize = 0;
        let ghost f = is_expr(module@, id);
        while i < self.expr_types.len()
            invariant
                i <= self.expr_types@.len(),
                f == is_expr(module@, id),
                forall|j: int| 0 <= j < i ==> !f(#[trigger] self.expr_types@[j]),
            decreases self.expr_types@.len() - i,
        {
            let e = &self.expr_types[i];
            if e.module == *module && e.expr == id {
                proof {
                    lemma_first_at(self.expr_types@, f, i as int);
                }
                return Some(&e.info);
            }
            i = i + 1;
        }
        proof {
            lemma_first_none(self.expr_types@, f);
        }
        None
    }

    pub fn get_func_sig(&self, name: &String) -> (r: Option<&FuncSig>)
        ensures
            match r {
                Some(s) => self.sig_of(name@) == Some(*s),
                None => self.sig_of(name@) is None,
            },
    {
        find_sig(&self.func_sigs, name)
    }

    pub fn get_type_def(&self, name: &String) -> (r: Option<&TypeDef>)
        ensures
            match r {
                Some(t) => self.def_of(name@) == Some(*t),
                None => self.def_of(name@) is None,
            },
    {
        let mut i: usize = 0;
        let ghost f = is_type(name@);
        while i < self.type_defs.len()
            invariant
                i <= self.type_defs@.len(),
                f == is_type(name@),
                forall|j: int| 0 <= j < i ==> !f(#[trigger] self.type_defs@[j]),
            decreases self.type_defs@.len() - i,
        {
            if self.type_defs[i].name == *name {
                proof {
                    lemma_first_at(self.type_defs@, f, i as int);
                }
                return Some(&self.type_defs[i]);
            }
            i = i + 1;
        }
        proof {
            lemma_first_none(self.type_defs@, f);
        }
        None
    }

    /// Whether the function is known to suspend or throw.
    pub fn suspends_or_throws(&self, name: &String) -> (r: bool)
        ensures
            r == self.effectful_fn(name@),
    {
        match self.get_func_sig(name) {
            Some(s) => s.is_async || s.is_throwing,
            None => false,
        }
    }

    /// Whether the method is known to suspend or throw.
    pub fn method_suspends_or_throws(&self, owner: &String, method: &String) -> (r: bool)
        ensures
            r == self.effectful_method(owner@, method@),
    {
        match self.get_type_def(owner) {
            Some(t) => match find_sig(&t.methods, method) {
                Some(s) => s.is_async || s.is_throwing,
                None => false,
            },
            None => false,
        }
    }

    /// Whether a trait that the type implements takes the method from it.
    pub fn implements_trait_method(&self, owner: &String, method: &String) -> (r: bool)
        ensures
            r == self.is_trait_method(owner@, method@),
    {
        if self.get_type_def(owner).is_none() {
            return false;
        }
        let mut i: usize = 0;
        while i < self.witnesses.len()
            invariant
                i <= self.witnesses@.len(),
                self.def_of(owner@) is Some,
                forall|k: int| 0 <= k < i ==> !#[trigger] has_slot(self.witnesses@[k], owner@, method@),
            decreases self.witnesses@.len() - i,
        {
            let w = &self.witnesses[i];
            if w.implementor == *owner && holds_name(&w.method_slots, method) {
                assert(has_slot(self.witnesses@[i as int], owner@, method@));
                return true;
            }
            i = i + 1;
        }
        false
    }
}

pub open spec fn has_slot(w: Witness, owner: Seq<char>, method: Seq<char>) -> bool {
    w.implementor@ == owner && has_name(w.method_slots@, method)
}

pub open spec fn has_name(names: Seq<String>, name: Seq<char>) -> bool {
    exists|i: int| 0 <= i < names.len() && (#[trigger] names[i])@ == name
}

pub fn holds_name(names: &Vec<String>, name: &String) -> (r: bool)
    ensures
        r == has_name(names@, name@),
{
    let mut i: usize = 0;
    while i < names.len()
        invariant
            i <= names@.len(),
            forall|k: int| 0 <= k < i ==> (#[trigger] names@[k])@ != name@,
        decreases names@.len() - i,
    {
        if names[i] == *name {
            return true;
        }
        i = i + 1;
    }
    false
}

fn find_sig<'a>(sigs: &'a Vec<FuncSig>, name: &String) -> (r: Option<&'a FuncSig>)
    ensures
        match r {
            Some(s) => first(sigs@, is_sig(name@)) == Some(*s),
            None => first(sigs@, is_sig(name@)) is None,
        },
{
    let mut i: usize = 0;
    let ghost f = is_sig(name@);
    while i < sigs.len()
        invariant
            i <= sigs@.len(),
            f == is_sig(name@),
            forall|j: int| 0 <= j < i ==> !f(#[trigger] sigs@[j]),
        decreases sigs@.len() - i,
    {
        if sigs[i].name == *name {
            proof {
                lemma_first_at(sigs@, f, i as int);
            }
            return Some(&sigs[i]);
        }
        i = i + 1;
    }
    proof {
        lemma_first_none(sigs@, f);
    }
    None
}

/// The full name of the method that a call on `recv` reaches, where the type
/// of `recv` is known.
pub open spec fn method_target(sema: SemaResult, module: Seq<char>, recv: Expr, method: Seq<char>) -> Option<
    Seq<char>,
> {
    match sema.type_of(module, recv.id) {
        Some(t) => Some(full_name(t, method)),
        None => None,
    }
}

pub fn resolve_method_mangled(recv: &Expr, method: &String, module: &String, sema: &SemaResult) -> (r: Option<String>)
    ensures
        match r {
            Some(n) => method_target(*sema, module@, *recv, method@) == Some(n@),
            None => method_target(*sema, module@, *recv, method@) is None,
        },
{
    match sema.expr_info(module, recv.id) {
        Some(info) => match &info.type_of {
            Some(t) => Some(mangle(t, method)),
            None => None,
        },
        None => None,
    }
}

/// The value of a condition that is known before the program runs.
pub open spec fn const_condition(sema: SemaResult, module: Seq<char>, e: Expr) -> Option<bool> {
    match e.kind {
        ExprKind::BoolLit(b) => Some(b),
        _ => sema.const_of(module, e.id),
    }
}

pub fn eval_const_bool(e: &Expr, module: &String, sema: &SemaResult) -> (r: Option<bool>)
    ensures
        r == const_condition(*sema, module@, *e),
{
    match &e.kind {
        ExprKind::BoolLit(b) => Some(*b),
        _ => match sema.expr_info(module, e.id) {
            Some(info) => info.const_bool,
            None => None,
        },
    }
}

// ---- laws ------------------------------------------------------------------

/// A call of a function may suspend or throw where the first signature of that
/// name says so; of an unknown function nothing is known to.
pub proof fn law_signatures_tell_effects(sema: SemaResult, name: Seq<char>, i: int)
    requires
        0 <= i < sema.func_sigs@.len() ==> sema.func_sigs@[i].name@ == name,
        forall|j: int| 0 <= j < sema.func_sigs@.len() && j < i ==> (#[trigger] sema.func_sigs@[j]).name@ != name,
        0 <= i <= sema.func_sigs@.len(),
    ensures
        i < sema.func_sigs@.len() ==> (sema.effectful_fn(name) <==> sema.func_sigs@[i].is_async
            || sema.func_sigs@[i].is_throwing),
        i == sema.func_sigs@.len() ==> !sema.effectful_fn(name),
{
    if i < sema.func_sigs@.len() {
        lemma_first_at(sema.func_sigs@, is_sig(name), i);
    } else {
        lemma_first_none(sema.func_sigs@, is_sig(name));
    }
}

/// A call on a receiver whose type is known reaches the method of that type; a
/// condition that is written out as a truth value is known.
pub proof fn law_known_receivers_give_the_method(sema: SemaResult, module: Seq<char>, recv: Expr, method: Seq<char>, i: int)
    requires
        0 <= i < sema.expr_types@.len(),
        sema.expr_types@[i].module@ == module,
        sema.expr_types@[i].expr == recv.id,
        forall|j: int|
            0 <= j < i ==> (#[trigger] sema.expr_types@[j]).module@ != module || sema.expr_types@[j].expr != recv.id,
    ensures
        sema.expr_types@[i].info.type_of matches Some(t) ==> method_target(sema, module, recv, method) == Some(
            t@ + seq!['.'] + method,
        ),
        sema.expr_types@[i].info.type_of is None ==> method_target(sema, module, recv, method) is None,
        recv.kind matches ExprKind::BoolLit(b) ==> const_condition(sema, module, recv) == Some(b),
        !(recv.kind is BoolLit) ==> const_condition(sema, module, recv) == sema.expr_types@[i].info.const_bool,
{
    lemma_first_at(sema.expr_types@, is_expr(module, recv.id), i);
    if let Some(t) = sema.expr_types@[i].info.type_of {
        assert(full_name(t@, method) =~= t@ + seq!['.'] + method);
    }
}

} // verus!
