//! What a module declares to the modules around it.

use crate::ast::tree::{Decl, Module, Visibility};
use crate::fx::NameSet;
use vstd::prelude::*;

verus! {

/// The name that a declaration makes visible to other modules.
pub open spec fn export_name(d: Decl) -> Option<Seq<char>> {
    match d {
        Decl::Fun(f) => if f.visibility == Visibility::Public {
            Some(f.name@)
        } else {
            None
        },
        Decl::Type(t) => if t.visibility == Visibility::Public {
            Some(t.name@)
        } else {
            None
        },
        Decl::Pack { name, visibility } => if visibility == Visibility::Public {
            Some(name@)
        } else {
            None
        },
        _ => None,
    }
}

/// The names that the first `k` declarations make visible.
pub open spec fn exports_upto(m: Module, k: int) -> Set<Seq<char>>
    decreases k,
{
    if k <= 0 {
        Set::empty()
    } else {
        match export_name(m.declarations@[k - 1]) {
            Some(n) => exports_upto(m, k - 1).insert(n),
            None => exports_upto(m, k - 1),
        }
    }
}

/// The names that a module makes visible.
pub open spec fn exports_of(m: Module) -> Set<Seq<char>> {
    exports_upto(m, m.declarations@.len() as int)
}

/// The names that a module makes visible.
pub fn collect_exports(module: &Module) -> (exports: NameSet)
    ensures
        exports@ == exports_of(*module),
{
    let mut exports = NameSet::new();
    let mut i: usize = 0;
    while i < module.declarations.len()
        invariant
            i <= module.declarations@.len(),
            exports@ == exports_upto(*module, i as int),
        decreases module.declarations@.len() - i,
    {
        match &module.declarations[i] {
            Decl::Fun(f) => {
                if f.visibility == Visibility::Public {
                    exports.insert(f.name.clone());
                }
            },
            Decl::Type(t) => {
                if t.visibility == Visibility::Public {
                    exports.insert(t.name.clone());
                }
            },
            Decl::Pack { name, visibility } => {
                if *visibility == Visibility::Public {
                    exports.insert(name.clone());
                }
            },
            _ => {},
        }
        i = i + 1;
    }
    exports
}

/// The public submodules among the first `k` declarations.
pub open spec fn packs_upto(m: Module, k: int) -> Seq<String>
    decreases k,
{
    if k <= 0 {
        seq![]
    } else {
        match m.declarations@[k - 1] {
            Decl::Pack { name, visibility } => if visibility == Visibility::Public {
                packs_upto(m, k - 1).push(name)
            } else {
                packs_upto(m, k - 1)
            },
            _ => packs_upto(m, k - 1),
        }
    }
}

/// The public submodules of a package.
pub open spec fn packs_of(m: Module) -> Seq<String> {
    packs_upto(m, m.declarations@.len() as int)
}

/// The public submodules of a package.
pub fn collect_pack_submodules(module: &Module) -> (subs: Vec<String>)
    ensures
        subs@ == packs_of(*module),
{
    let mut subs: Vec<String> = Vec::new();
    let mut i: usize = 0;
    while i < module.declarations.len()
        invariant
            i <= module.declarations@.len(),
            subs@ == packs_upto(*module, i as int),
        decreases module.declarations@.len() - i,
    {
        if let Decl::Pack { name, visibility } = &module.declarations[i] {
            if *visibility == Visibility::Public {
                subs.push(name.clone());
            }
        }
        i = i + 1;
    }
    subs
}

/// An import: the path of the module, and the names that are taken from it
/// where they are listed.
#[derive(Debug, Clone, Copy)]
pub struct ImportRef<'a> {
    pub path: &'a Vec<String>,
    pub items: &'a Option<Vec<String>>,
}

/// The imports among the first `k` declarations.
pub open spec fn imports_upto<'a>(m: Module, k: int) -> Seq<ImportRef<'a>>
    decreases k,
{
    if k <= 0 {
        seq![]
    } else {
        match m.declarations@[k - 1] {
            Decl::Import { path, items } => imports_upto(m, k - 1).push(ImportRef { path: &path, items: &items }),
            _ => imports_upto(m, k - 1),
        }
    }
}

/// The imports of a module, in order.
pub open spec fn imports_of<'a>(m: Module) -> Seq<ImportRef<'a>> {
    imports_upto(m, m.declarations@.len() as int)
}

/// The paths of a module's imports, in order.
pub open spec fn import_paths(m: Module) -> Seq<Seq<String>> {
    imports_of(m).map_values(|i: ImportRef| i.path@)
}

/// The imports of a module, in order.
pub fn collect_imports<'a>(module: &'a Module) -> (imports: Vec<ImportRef<'a>>)
    ensures
        imports@ == imports_of(*module),
{
    let mut imports: Vec<ImportRef<'a>> = Vec::new();
    let mut i: usize = 0;
    while i < module.declarations.len()
        invariant
            i <= module.declarations@.len(),
            imports@ == imports_upto(*module, i as int),
        decreases module.declarations@.len() - i,
    {
        if let Decl::Import { path, items } = &module.declarations[i] {
            imports.push(ImportRef { path, items });
        }
        i = i + 1;
    }
    imports
}

// ---- laws ------------------------------------------------------------------

/// A module makes visible exactly the names of its public functions, types and
/// submodules.
pub proof fn law_public_names_are_exported(m: Module, name: Seq<char>)
    ensures
        exports_of(m).contains(name) <==> exists|i: int|
            0 <= i < m.declarations@.len() && match #[trigger] m.declarations@[i] {
                Decl::Fun(f) => f.visibility == Visibility::Public && f.name@ == name,
                Decl::Type(t) => t.visibility == Visibility::Public && t.name@ == name,
                Decl::Pack { name: n, visibility } => visibility == Visibility::Public && n@ == name,
                _ => false,
            },
{
    lemma_exports(m, m.declarations@.len() as int, name);
}

proof fn lemma_exports(m: Module, k: int, name: Seq<char>)
    requires
        0 <= k <= m.declarations@.len(),
    ensures
        exports_upto(m, k).contains(name) <==> exists|i: int|
            0 <= i < k && match #[trigger] m.declarations@[i] {
                Decl::Fun(f) => f.visibility == Visibility::Public && f.name@ == name,
                Decl::Type(t) => t.visibility == Visibility::Public && t.name@ == name,
                Decl::Pack { name: n, visibility } => visibility == Visibility::Public && n@ == name,
                _ => false,
            },
    decreases k,
{
    if k > 0 {
        lemma_exports(m, k - 1, name);
        let d = m.declarations@[k - 1];
        if export_name(d) == Some(name) {
            assert(match m.declarations@[k - 1] {
                Decl::Fun(f) => f.visibility == Visibility::Public && f.name@ == name,
                Decl::Type(t) => t.visibility == Visibility::Public && t.name@ == name,
                Decl::Pack { name: n, visibility } => visibility == Visibility::Public && n@ == name,
                _ => false,
            });
        }
    }
}

/// The imports of a module are listed as they stand, in order, and so are its
/// public submodules.
pub proof fn law_imports_are_listed_in_order<'a>(m: Module, i: int)
    requires
        0 <= i < m.declarations@.len(),
    ensures
        m.declarations@[i] matches Decl::Import { path, items } ==> imports_upto::<'a>(m, i).len() < imports_of::<'a>(
            m,
        ).len() && imports_of::<'a>(m)[imports_upto::<'a>(m, i).len() as int] == (ImportRef { path: &path, items: &items })
            && import_paths(m)[imports_upto::<'a>(m, i).len() as int] == path@,
        m.declarations@[i] matches Decl::Pack { name, visibility } ==> visibility == Visibility::Public ==> packs_upto(
            m,
            i,
        ).len() < packs_of(m).len() && packs_of(m)[packs_upto(m, i).len() as int] == name,
{
    let n = m.declarations@.len() as int;
    lemma_listed_stays(m, i + 1, n);
    let a = imports_upto::<'a>(m, i + 1);
    let b = imports_of::<'a>(m);
    let c = packs_upto(m, i + 1);
    let d = packs_of(m);
    if m.declarations@[i] is Import {
        let k = imports_upto::<'a>(m, i).len() as int;
        assert(a[k] == b.subrange(0, a.len() as int)[k]);
        assert(b[k] == a[k]);
    }
    if m.declarations@[i] matches Decl::Pack { visibility, .. } && visibility == Visibility::Public {
        let k = packs_upto(m, i).len() as int;
        assert(c[k] == d.subrange(0, c.len() as int)[k]);
    }
}

proof fn lemma_listed_stays<'a>(m: Module, k: int, n: int)
    requires
        0 <= k <= n,
    ensures
        imports_upto::<'a>(m, k).is_prefix_of(imports_upto::<'a>(m, n)),
        packs_upto(m, k).is_prefix_of(packs_upto(m, n)),
    decreases n,
{
    if k < n {
        lemma_listed_stays(m, k, n - 1);
        let a = imports_upto::<'a>(m, n - 1);
        let b = packs_upto(m, n - 1);
        assert(a.is_prefix_of(imports_upto::<'a>(m, n)));
        assert(b.is_prefix_of(packs_upto(m, n)));
    }
}

} // verus!
