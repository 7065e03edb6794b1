//! What the analyses know of functions and of allocations.

use crate::ast::tree::ExprId;
use crate::fx::{no_entries, Table};
use vstd::prelude::*;

verus! {

/// Number of a function: a declared function has the place of its declaration
/// in the module, the methods follow behind the last declaration.
#[derive(Debug, Clone, Copy, PartialEq, Eq, Structural, Hash)]
pub struct FuncId(pub u32);

/// Place of a definition among the definitions of a module.
#[derive(Debug, Clone, Copy, PartialEq, Eq, Structural, Hash)]
pub struct VarId(pub u32);

/// Place of a use among the uses of a module.
#[derive(Debug, Clone, Copy, PartialEq, Eq, Structural, Hash)]
pub struct UseId(pub u32);

/// Whether a function's result depends on its arguments alone and it does
/// nothing else.
#[derive(Debug, Clone, Copy, PartialEq, Eq, Structural)]
pub enum Purity {
    Pure,
    Impure,
}

/// The purity of functions.
#[derive(Debug)]
pub struct PurityTable {
    pub map: Table<Purity>,
}

impl PurityTable {
    pub open spec fn wf(self) -> bool {
        self.map.wf()
    }

    pub open spec fn of(self, f: FuncId) -> Option<Purity> {
        if self.map@.contains_key(f.0) {
            Some(self.map@[f.0])
        } else {
            None
        }
    }

    pub fn new() -> (t: Self)
        ensures
            t.wf(),
            t.map@ == no_entries::<Purity>(),
    {
        PurityTable { map: Table::new() }
    }

    pub fn put(&mut self, f: FuncId, p: Purity)
        requires
            old(self).wf(),
        ensures
            final(self).wf(),
            final(self).map@ == old(self).map@.insert(f.0, p),
    {
        self.map.put(f.0, p);
    }

    pub fn lookup(&self, f: FuncId) -> (r: Option<Purity>)
        ensures
            r == self.of(f),
    {
        match self.map.get(f.0) {
            Some(p) => Some(*p),
            None => None,
        }
    }

    pub fn is_pure(&self, f: FuncId) -> (r: bool)
        ensures
            r == (self.of(f) == Some(Purity::Pure)),
    {
        self.lookup(f) == Some(Purity::Pure)
    }
}

/// Why an allocation or a lambda outlives the function that makes it.
#[derive(Debug, Clone, Copy, PartialEq, Eq, Structural)]
pub enum EscapeKind {
    /// An array or a record.
    Alloc,
    /// A lambda, which is returned or captures a variable of a loop body.
    Lambda { loop_body_capture: bool },
}

#[derive(Debug, Clone, Copy, PartialEq, Eq, Structural)]
pub enum EscapeInfo {
    NoEscape,
    Escapes(EscapeKind),
}

/// What is known of allocations and lambdas, by expression.
#[derive(Debug)]
pub struct EscapeTable {
    pub map: Table<EscapeInfo>,
}

impl EscapeTable {
    pub open spec fn wf(self) -> bool {
        self.map.wf()
    }

    pub open spec fn of(self, e: ExprId) -> Option<EscapeInfo> {
        if self.map@.contains_key(e.0) {
            Some(self.map@[e.0])
        } else {
            None
        }
    }

    pub fn new() -> (t: Self)
        ensures
            t.wf(),
            t.map@ == no_entries::<EscapeInfo>(),
            t.map.keys() == Seq::<u32>::empty(),
    {
        EscapeTable { map: Table::new() }
    }

    pub fn put(&mut self, e: ExprId, info: EscapeInfo)
        requires
            old(self).wf(),
        ensures
            final(self).wf(),
            final(self).map@ == old(self).map@.insert(e.0, info),
            final(self).map.keys() == if old(self).map@.contains_key(e.0) {
                old(self).map.keys()
            } else {
                old(self).map.keys().push(e.0)
            },
    {
        self.map.put(e.0, info);
    }

    pub fn lookup(&self, e: ExprId) -> (r: Option<EscapeInfo>)
        ensures
            r == self.of(e),
    {
        match self.map.get(e.0) {
            Some(i) => Some(*i),
            None => None,
        }
    }

    pub fn is_no_escape(&self, e: ExprId) -> (r: bool)
        ensures
            r == (self.of(e) == Some(EscapeInfo::NoEscape)),
    {
        self.lookup(e) == Some(EscapeInfo::NoEscape)
    }
}

} // verus!
