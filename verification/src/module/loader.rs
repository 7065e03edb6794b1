//! The module loader: what is loaded, what could not be loaded, and where the
//! next module is looked for.
//!
//! Reading and parsing files is left to the caller. A `Resolution` tells what
//! to do next, and takes what came of it.

use super::contents::{collect_exports, collect_imports, collect_pack_submodules, exports_of, import_paths, packs_of};
use super::deps::DepGraph;
use super::paths::{
    directory_of, extract_last_segment, file_of, has_prefix, law_module_files_are_source_files, module_path_to_file,
    parent_directory, starts_with, strip_suffix, suffix, symbol_of, without_suffix,
};
use crate::ast::sema::has_name;
use crate::ast::tree::Module;
use crate::find::{first, lemma_first_at, lemma_first_none};
use crate::fx::NameSet;
use crate::name_table::NameTable;
use vstd::prelude::*;
use vstd::string::StringExecFns;

verus! {

/// A source file that comes with the compiler.
#[derive(Debug)]
pub struct StdlibFile {
    pub path: String,
    pub source: String,
}

/// The source files that come with the compiler: those that are always loaded,
/// then those that are loaded when they are imported.
#[derive(Debug)]
pub struct Stdlib {
    pub builtin: Vec<StdlibFile>,
    pub std: Vec<StdlibFile>,
}

pub open spec fn is_file(path: Seq<char>) -> spec_fn(StdlibFile) -> bool {
    |f: StdlibFile| f.path@ == path
}

impl Stdlib {
    pub open spec fn files(self) -> Seq<StdlibFile> {
        self.builtin@ + self.std@
    }

    pub open spec fn is_builtin(self, path: Seq<char>) -> bool {
        exists|i: int| 0 <= i < self.builtin@.len() && (#[trigger] self.builtin@[i]).path@ == path
    }

    pub fn len(&self) -> (n: usize)
        requires
            self.files().len() <= usize::MAX,
        ensures
            n == self.files().len(),
    {
        self.builtin.len() + self.std.len()
    }

    fn file_at(&self, i: usize) -> (f: &StdlibFile)
        requires
            i < self.files().len(),
        ensures
            *f == self.files()[i as int],
    {
        if i < self.builtin.len() {
            &self.builtin[i]
        } else {
            &self.std[i - self.builtin.len()]
        }
    }

    /// The source of a file, the first of that path.
    pub fn find(&self, path: &String) -> (r: Option<&String>)
        ensures
            match r {
                Some(s) => first(self.files(), is_file(path@)) matches Some(f) && f.source == *s,
                None => first(self.files(), is_file(path@)) is None,
            },
    {
        let ghost f = is_file(path@);
        let ghost all = self.files();
        let mut i: usize = 0;
        while i < self.builtin.len()
            invariant
                i <= self.builtin@.len(),
                f == is_file(path@),
                all == self.files(),
                forall|k: int| 0 <= k < i ==> !f(#[trigger] all[k]),
            decreases self.builtin@.len() - i,
        {
            if self.builtin[i].path == *path {
                proof {
                    lemma_first_at(all, f, i as int);
                }
                return Some(&self.builtin[i].source);
            }
            i = i + 1;
        }
        let mut j: usize = 0;
        let ghost b = self.builtin@.len() as int;
        while j < self.std.len()
            invariant
                j <= self.std@.len(),
                b == self.builtin@.len(),
                f == is_file(path@),
                all == self.files(),
                forall|k: int| 0 <= k < b + j ==> !f(#[trigger] all[k]),
            decreases self.std@.len() - j,
        {
            assert(all[b + j] == self.std@[j as int]);
            if self.std[j].path == *path {
                proof {
                    lemma_first_at(all, f, b + j);
                }
                return Some(&self.std[j].source);
            }
            j = j + 1;
        }
        proof {
            lemma_first_none(all, f);
        }
        None
    }

    /// Whether the file is one of those that are always loaded.
    pub fn holds_builtin(&self, path: &String) -> (r: bool)
        ensures
            r == self.is_builtin(path@),
    {
        let mut i: usize = 0;
        while i < self.builtin.len()
            invariant
                i <= self.builtin@.len(),
                forall|k: int| 0 <= k < i ==> (#[trigger] self.builtin@[k]).path@ != path@,
            decreases self.builtin@.len() - i,
        {
            if self.builtin[i].path == *path {
                return true;
            }
            i = i + 1;
        }
        false
    }
}

/// Where and why a source file could not be parsed.
#[derive(Debug)]
pub struct ParseFailure {
    pub line: u32,
    pub column: u32,
    pub message: String,
}

/// Why a module could not be loaded.
#[derive(Debug)]
pub enum LoadError {
    ModuleNotFound { path: String },
    ParseFailed { path: String, line: u32, column: u32, message: String },
    CircularImport { path: String },
}

/// A module with the names that it makes visible.
#[derive(Debug)]
pub struct LoadedModule {
    pub module: Module,
    pub exports: NameSet,
}

#[derive(Debug)]
pub struct ModuleLoader {
    pub stdlib: Stdlib,
    pub modules: NameTable<LoadedModule>,
    /// Where the user's files are looked for, in order.
    pub search_paths: Vec<String>,
    /// In the order in which they occurred.
    pub load_errors: Vec<LoadError>,
    /// The files that could not be loaded; they are not tried again.
    pub failed_paths: NameSet,
    pub deps: DepGraph,
}

/// What is loaded, what could not be, and what was reported.
pub ghost struct Loaded {
    pub modules: Map<Seq<char>, Module>,
    pub failed: Set<Seq<char>>,
    pub errors: Seq<LoadError>,
}

impl Loaded {
    pub open spec fn with(self, key: Seq<char>, m: Module) -> Loaded {
        Loaded { modules: self.modules.insert(key, m), ..self }
    }

    /// The file is not tried again.
    pub open spec fn given_up(self, key: Seq<char>) -> Loaded {
        Loaded { failed: self.failed.insert(key), ..self }
    }

    pub open spec fn not_found(self, key: String) -> Loaded {
        Loaded {
            failed: self.failed.insert(key@),
            errors: self.errors.push(LoadError::ModuleNotFound { path: key }),
            ..self
        }
    }

    pub open spec fn unparsed(self, key: String, e: ParseFailure) -> Loaded {
        Loaded {
            failed: self.failed.insert(key@),
            errors: self.errors.push(
                LoadError::ParseFailed { path: key, line: e.line, column: e.column, message: e.message },
            ),
            ..self
        }
    }
}

impl ModuleLoader {
    pub open spec fn wf(self) -> bool {
        &&& self.modules.wf()
        &&& self.deps.wf()
        &&& self.stdlib.files().len() <= usize::MAX
        &&& forall|n: Seq<char>| #[trigger]
            self.modules.has(n) ==> self.modules.at(n).exports@ == exports_of(self.modules.at(n).module)
    }

    /// Another module can be held.
    pub open spec fn has_room(self) -> bool {
        self.modules.count() < u32::MAX
    }

    pub open spec fn loaded(self) -> Loaded {
        Loaded {
            modules: Map::new(|n: Seq<char>| self.modules.has(n), |n: Seq<char>| self.modules.at(n).module),
            failed: self.failed_paths@,
            errors: self.load_errors@,
        }
    }

    /// A loader that has nothing loaded yet.
    pub fn new(stdlib: Stdlib) -> (l: Self)
        requires
            stdlib.files().len() <= usize::MAX,
        ensures
            l.wf(),
            l.stdlib == stdlib,
            l.loaded().modules == Map::<Seq<char>, Module>::empty(),
            l.loaded().failed == Set::<Seq<char>>::empty(),
            l.load_errors@.len() == 0,
            l.search_paths@.len() == 0,
            l.modules.count() == 0,
            l.deps.forward.count() == 0,
            l.deps.reverse.count() == 0,
            forall|a: Seq<char>, b: Seq<char>| !#[trigger] l.deps.imports(a, b),
    {
        let l = ModuleLoader {
            stdlib,
            modules: NameTable::new(),
            search_paths: Vec::new(),
            load_errors: Vec::new(),
            failed_paths: NameSet::new(),
            deps: DepGraph::new(),
        };
        assert(l.loaded().modules =~= Map::<Seq<char>, Module>::empty());
        l
    }

    /// Adds a directory in which the user's files are looked for.
    pub fn add_search_path(&mut self, path: String)
        ensures
            final(self).search_paths@ == old(self).search_paths@.push(path),
            final(self).stdlib == old(self).stdlib,
            final(self).modules == old(self).modules,
            final(self).load_errors == old(self).load_errors,
            final(self).failed_paths == old(self).failed_paths,
            final(self).deps == old(self).deps,
    {
        self.search_paths.push(path);
    }

    /// Whether another module can be held.
    pub fn can_hold_more(&self) -> (r: bool)
        ensures
            r == self.has_room(),
    {
        self.modules.len() < 0xFFFF_FFFF
    }

    /// The errors, in the order in which they occurred.
    pub fn load_errors(&self) -> (r: &Vec<LoadError>)
        ensures
            *r == self.load_errors,
    {
        &self.load_errors
    }

    pub fn has_load_errors(&self) -> (r: bool)
        ensures
            r == (self.load_errors@.len() > 0),
    {
        self.load_errors.len() > 0
    }

    /// The module of a file, where it is loaded.
    pub fn get_module_by_key(&self, key: &String) -> (r: Option<&Module>)
        requires
            self.wf(),
        ensures
            match r {
                Some(m) => self.loaded().modules.contains_key(key@) && *m == self.loaded().modules[key@],
                None => !self.loaded().modules.contains_key(key@),
            },
    {
        match self.modules.get(key) {
            Some(l) => Some(&l.module),
            None => None,
        }
    }

    /// The files of the loaded modules, each once, in the order in which they
    /// were loaded first.
    pub fn loaded_keys(&self) -> (keys: Vec<String>)
        requires
            self.wf(),
        ensures
            keys@.len() == self.modules.count(),
            forall|i: int| 0 <= i < keys@.len() ==> (#[trigger] keys@[i])@ == self.modules.names()[i],
            forall|n: Seq<char>| has_name(keys@, n) <==> self.loaded().modules.contains_key(n),
    {
        let mut keys: Vec<String> = Vec::new();
        let mut i: usize = 0;
        proof {
            self.modules.lemma_names();
        }
        while i < self.modules.len()
            invariant
                i <= self.modules.count(),
                self.wf(),
                keys@.len() == i,
                forall|k: int| 0 <= k < i ==> (#[trigger] keys@[k])@ == self.modules.names()[k],
            decreases self.modules.count() - i,
        {
            keys.push(self.modules.key_at(i).clone());
            i = i + 1;
        }
        proof {
            let names = self.modules.names();
            assert forall|n: Seq<char>| has_name(keys@, n) <==> self.loaded().modules.contains_key(n) by {
                if has_name(keys@, n) {
                    let k = choose|k: int| 0 <= k < keys@.len() && (#[trigger] keys@[k])@ == n;
                    assert(names[k] == n);
                    assert(names.contains(n));
                }
                if self.modules.has(n) {
                    let k = choose|k: int| 0 <= k < names.len() && names[k] == n;
                    assert(keys@[k]@ == n);
                }
            }
        }
        keys
    }

    /// The loaded modules among those that are always loaded, in the order of
    /// their files.
    pub fn builtin_modules(&self) -> (r: Vec<(&String, &Module)>)
        requires
            self.wf(),
        ensures
            r@ == loaded_builtins(self.loaded().modules, self.stdlib.builtin@, self.stdlib.builtin@.len() as int),
    {
        let mut r: Vec<(&String, &Module)> = Vec::new();
        let mut i: usize = 0;
        while i < self.stdlib.builtin.len()
            invariant
                i <= self.stdlib.builtin@.len(),
                self.wf(),
                r@ == loaded_builtins(self.loaded().modules, self.stdlib.builtin@, i as int),
            decreases self.stdlib.builtin@.len() - i,
        {
            let path = &self.stdlib.builtin[i].path;
            if let Some(m) = self.get_module_by_key(path) {
                r.push((path, m));
            }
            i = i + 1;
        }
        r
    }

    /// Holds a module for a file.
    fn hold(&mut self, key: &String, module: Module)
        requires
            old(self).wf(),
            old(self).has_room(),
        ensures
            final(self).wf(),
            final(self).loaded() == old(self).loaded().with(key@, module),
            final(self).modules.count() <= old(self).modules.count() + 1,
            final(self).stdlib == old(self).stdlib,
            final(self).search_paths == old(self).search_paths,
            final(self).deps == old(self).deps,
    {
        let exports = collect_exports(&module);
        self.modules.put(key, LoadedModule { module, exports });
        assert(self.loaded().modules =~= old(self).loaded().modules.insert(key@, module));
    }

    /// Does not try the file again.
    fn give_up(&mut self, key: &String)
        requires
            old(self).wf(),
        ensures
            final(self).wf(),
            final(self).loaded() == old(self).loaded().given_up(key@),
            final(self).modules == old(self).modules,
            final(self).stdlib == old(self).stdlib,
            final(self).search_paths == old(self).search_paths,
            final(self).deps == old(self).deps,
    {
        self.failed_paths.insert(key.clone());
    }

    /// Holds what was parsed from a file, or reports why it could not be.
    pub fn accept(&mut self, key: &String, parsed: Result<Module, ParseFailure>) -> (ok: bool)
        requires
            old(self).wf(),
            old(self).has_room(),
        ensures
            final(self).wf(),
            final(self).loaded() == match parsed {
                Ok(m) => old(self).loaded().with(key@, m),
                Err(e) => old(self).loaded().unparsed(*key, e),
            },
            ok == parsed is Ok,
            final(self).modules.count() <= old(self).modules.count() + 1,
            final(self).stdlib == old(self).stdlib,
            final(self).search_paths == old(self).search_paths,
            final(self).deps == old(self).deps,
    {
        match parsed {
            Ok(m) => {
                self.hold(key, m);
                true
            },
            Err(e) => {
                self.give_up(key);
                self.load_errors.push(
                    LoadError::ParseFailed { path: key.clone(), line: e.line, column: e.column, message: e.message },
                );
                false
            },
        }
    }
}

/// What is loaded after the first `k` of the files that are always loaded have
/// been parsed to that.
pub open spec fn preloaded(l: Loaded, files: Seq<StdlibFile>, parsed: Seq<Result<Module, ParseFailure>>, k: int) -> Loaded
    decreases k,
{
    if k <= 0 {
        l
    } else {
        let before = preloaded(l, files, parsed, k - 1);
        match parsed[k - 1] {
            Ok(m) => before.with(files[k - 1].path@, m),
            Err(e) => before.unparsed(files[k - 1].path, e),
        }
    }
}

impl ModuleLoader {
    /// Holds the files that are always loaded, in their order, or reports why
    /// one could not be parsed.
    pub fn preload_builtins(&mut self, parsed: Vec<Result<Module, ParseFailure>>)
        requires
            old(self).wf(),
            parsed@.len() == old(self).stdlib.builtin@.len(),
            old(self).modules.count() + parsed@.len() <= u32::MAX,
        ensures
            final(self).wf(),
            final(self).loaded() == preloaded(
                old(self).loaded(),
                old(self).stdlib.builtin@,
                parsed@,
                parsed@.len() as int,
            ),
            final(self).stdlib == old(self).stdlib,
            final(self).search_paths == old(self).search_paths,
            final(self).deps == old(self).deps,
    {
        let ghost all = parsed@;
        let ghost first = *self;
        let n = parsed.len();
        let mut rest = parsed;
        let mut i: usize = 0;
        while i < n
            invariant
                i <= n == all.len(),
                n == first.stdlib.builtin@.len(),
                first.modules.count() + n <= u32::MAX,
                self.wf(),
                self.stdlib == first.stdlib,
                self.search_paths == first.search_paths,
                self.deps == first.deps,
                self.modules.count() <= first.modules.count() + i,
                rest@ == all.skip(i as int),
                self.loaded() == preloaded(first.loaded(), first.stdlib.builtin@, all, i as int),
            decreases n - i,
        {
            let path = self.stdlib.builtin[i].path.clone();
            let one = rest.remove(0);
            assert(one == all[i as int]);
            assert(rest@ =~= all.skip(i + 1));
            self.accept(&path, one);
            i = i + 1;
        }
    }
}

/// The loaded modules of the first `k` files.
pub open spec fn loaded_builtins<'a>(modules: Map<Seq<char>, Module>, files: Seq<StdlibFile>, k: int) -> Seq<
    (&'a String, &'a Module),
>
    decreases k,
{
    if k <= 0 {
        seq![]
    } else {
        let rest = loaded_builtins(modules, files, k - 1);
        if modules.contains_key(files[k - 1].path@) {
            rest.push((&files[k - 1].path, &modules[files[k - 1].path@]))
        } else {
            rest
        }
    }
}

// ---- where a module is looked for ------------------------------------------

/// What to do next.
#[derive(Debug)]
pub enum Action {
    /// Parse the file that comes with the compiler.
    ParseEmbedded { file: String },
    /// Read and parse the first readable file of that path in the search paths.
    ReadFile { file: String },
    /// Read and parse the first readable package file of that directory in the
    /// search paths.
    ReadPack { dir: String },
    /// Read and parse a submodule in the search path where the package was
    /// found.
    ReadSub { base: usize, file: String },
    /// Parse a file that comes with the compiler, for what it exports.
    ParseSibling { file: String },
    /// Nothing: the module is loaded, or cannot be.
    Finish { loaded: bool },
}

/// What came of it.
#[derive(Debug)]
pub enum Event {
    /// A module, and the number of the search path where it was found.
    Parsed { base: usize, module: Module },
    Failed(ParseFailure),
    /// There is no such file, or it cannot be read.
    Absent,
}

#[derive(Debug)]
pub enum Phase {
    Embedded,
    File,
    Pack,
    /// A package was found; its submodule `next` is read.
    Sub { base: usize, pack: Module, next: usize },
    /// The embedded file `at` is parsed for what it exports.
    Sibling { at: usize },
    Done { loaded: bool },
}

/// How far looking for a module has come.
#[derive(Debug)]
pub struct Resolution {
    pub key: String,
    pub phase: Phase,
}

/// The file's path without its ending.
pub open spec fn dir_of(key: Seq<char>) -> Seq<char> {
    match without_suffix(key) {
        Some(d) => d,
        None => key,
    }
}

/// The file of a submodule.
pub open spec fn sub_file(dir: Seq<char>, name: Seq<char>) -> Seq<char> {
    dir.push('/') + name + suffix()
}

/// The first submodule, from `k` on, that is not loaded.
pub open spec fn next_needed(modules: Map<Seq<char>, Module>, dir: Seq<char>, subs: Seq<String>, k: int) -> int
    decreases subs.len() - k,
{
    if k >= subs.len() || !modules.contains_key(sub_file(dir, subs[k]@)) {
        k
    } else {
        next_needed(modules, dir, subs, k + 1)
    }
}

/// Whether a loaded module in the file's directory exports its symbol.
pub open spec fn exported_nearby(modules: Map<Seq<char>, Module>, key: Seq<char>) -> bool {
    exists|n: Seq<char>| #[trigger]
        modules.contains_key(n) && starts_with(n, directory_of(key)) && exports_of(modules[n]).contains(
            symbol_of(key)->0,
        )
}

/// Whether the embedded file is to be parsed for what it exports: it is in the
/// directory, is another file, and is not loaded.
pub open spec fn worth_trying(modules: Map<Seq<char>, Module>, key: Seq<char>, f: StdlibFile) -> bool {
    starts_with(f.path@, directory_of(key)) && f.path@ != key && !modules.contains_key(f.path@)
}

/// The first embedded file, from `k` on, that is to be parsed for what it
/// exports.
pub open spec fn next_sibling(modules: Map<Seq<char>, Module>, key: Seq<char>, files: Seq<StdlibFile>, k: int) -> int
    decreases files.len() - k,
{
    if k >= files.len() || worth_trying(modules, key, files[k]) {
        k
    } else {
        next_sibling(modules, key, files, k + 1)
    }
}

/// Goes on with the submodules of a package, from `k` on; after the last one
/// the package stands for the module.
pub open spec fn with_subs(l: Loaded, key: Seq<char>, base: usize, pack: Module, k: int) -> (Loaded, Phase) {
    let n = next_needed(l.modules, dir_of(key), packs_of(pack), k);
    if n < packs_of(pack).len() {
        (l, Phase::Sub { base, pack, next: n as usize })
    } else {
        (l.with(key, pack), Phase::Done { loaded: true })
    }
}

/// Goes on with the embedded files, from `k` on; after the last one the module
/// is not found.
pub open spec fn with_siblings(l: Loaded, key: String, files: Seq<StdlibFile>, k: int) -> (Loaded, Phase) {
    let n = next_sibling(l.modules, key@, files, k);
    if n < files.len() {
        (l, Phase::Sibling { at: n as usize })
    } else {
        (l.not_found(key), Phase::Done { loaded: false })
    }
}

/// Where looking for a file starts: with what is loaded, with what is known to
/// fail, with the embedded files, with the search paths.
pub open spec fn first_phase(l: Loaded, files: Seq<StdlibFile>, key: Seq<char>) -> Phase {
    if l.modules.contains_key(key) {
        Phase::Done { loaded: true }
    } else if l.failed.contains(key) {
        Phase::Done { loaded: false }
    } else if first(files, is_file(key)) is Some {
        Phase::Embedded
    } else {
        Phase::File
    }
}

/// What comes after an event.
pub open spec fn next_phase(l: Loaded, files: Seq<StdlibFile>, key: String, phase: Phase, ev: Event) -> (
    Loaded,
    Phase,
) {
    match phase {
        Phase::Embedded | Phase::File => match ev {
            Event::Parsed { module, .. } => (l.with(key@, module), Phase::Done { loaded: true }),
            Event::Failed(e) => (l.unparsed(key, e), Phase::Done { loaded: false }),
            Event::Absent => if phase is Embedded {
                (l, Phase::File)
            } else {
                (l, Phase::Pack)
            },
        },
        Phase::Pack => match ev {
            Event::Parsed { base, module } => with_subs(l, key@, base, module, 0),
            Event::Failed(e) => (l.unparsed(key, e), Phase::Done { loaded: false }),
            Event::Absent => if exported_nearby(l.modules, key@) {
                (l.given_up(key@), Phase::Done { loaded: false })
            } else {
                with_siblings(l, key, files, 0)
            },
        },
        Phase::Sub { base, pack, next } => {
            let file = sub_file(dir_of(key@), packs_of(pack)[next as int]@);
            match ev {
                Event::Parsed { module, .. } => with_subs(l.with(file, module), key@, base, pack, next + 1),
                _ => with_subs(l, key@, base, pack, next + 1),
            }
        },
        Phase::Sibling { at } => match ev {
            Event::Parsed { module, .. } => if exports_of(module).contains(symbol_of(key@)->0) {
                (l.with(files[at as int].path@, module).given_up(key@), Phase::Done { loaded: false })
            } else {
                with_siblings(l, key, files, at + 1)
            },
            _ => with_siblings(l, key, files, at + 1),
        },
        Phase::Done { .. } => (l, phase),
    }
}

impl Resolution {
    /// The file is one of a module, and the phase fits the embedded files.
    pub open spec fn wf(self, stdlib: Stdlib) -> bool {
        &&& symbol_of(self.key@) is Some
        &&& match self.phase {
            Phase::Sub { pack, next, .. } => next < packs_of(pack).len(),
            Phase::Sibling { at } => at < stdlib.files().len(),
            _ => true,
        }
    }
}

fn dir_name(key: &String) -> (r: String)
    ensures
        r@ == dir_of(key@),
{
    match strip_suffix(key) {
        Some(d) => d,
        None => key.clone(),
    }
}

fn sub_path(dir: &String, name: &String) -> (r: String)
    ensures
        r@ == sub_file(dir@, name@),
{
    let mut r = dir.clone();
    r.append("/");
    r.append(name.as_str());
    r.append(".frond");
    proof {
        reveal_strlit("/");
        reveal_strlit(".frond");
    }
    assert(r@ =~= sub_file(dir@, name@));
    r
}

impl ModuleLoader {
    /// Starts to look for a module: in what is loaded, in the embedded files, in
    /// the search paths.
    pub fn resolve_and_load(&self, path: &Vec<String>) -> (r: Resolution)
        requires
            self.wf(),
        ensures
            r.key@ == file_of(path@),
            r.phase == first_phase(self.loaded(), self.stdlib.files(), r.key@),
            r.wf(self.stdlib),
    {
        let key = module_path_to_file(path);
        proof {
            law_module_files_are_source_files(path@);
        }
        let phase = if self.modules.contains(&key) {
            Phase::Done { loaded: true }
        } else if self.failed_paths.contains(key.as_str()) {
            Phase::Done { loaded: false }
        } else if self.stdlib.find(&key).is_some() {
            Phase::Embedded
        } else {
            Phase::File
        };
        Resolution { key, phase }
    }

    /// What to do next.
    pub fn action(&self, r: &Resolution) -> (a: Action)
        requires
            self.wf(),
            r.wf(self.stdlib),
        ensures
            match r.phase {
                Phase::Embedded => a matches Action::ParseEmbedded { file } && file@ == r.key@,
                Phase::File => a matches Action::ReadFile { file } && file@ == r.key@,
                Phase::Pack => a matches Action::ReadPack { dir } && dir@ == dir_of(r.key@),
                Phase::Sub { base, pack, next } => a matches Action::ReadSub { base: b, file } && b == base && file@
                    == sub_file(dir_of(r.key@), packs_of(pack)[next as int]@),
                Phase::Sibling { at } => a matches Action::ParseSibling { file } && file@
                    == self.stdlib.files()[at as int].path@,
                Phase::Done { loaded } => a matches Action::Finish { loaded: b } && b == loaded,
            },
    {
        match &r.phase {
            Phase::Embedded => Action::ParseEmbedded { file: r.key.clone() },
            Phase::File => Action::ReadFile { file: r.key.clone() },
            Phase::Pack => Action::ReadPack { dir: dir_name(&r.key) },
            Phase::Sub { base, pack, next } => {
                let subs = collect_pack_submodules(pack);
                Action::ReadSub { base: *base, file: sub_path(&dir_name(&r.key), &subs[*next]) }
            },
            Phase::Sibling { at } => Action::ParseSibling { file: self.stdlib.file_at(*at).path.clone() },
            Phase::Done { loaded } => Action::Finish { loaded: *loaded },
        }
    }

    /// Goes on with the submodules of a package.
    fn go_on_with_subs(&mut self, key: &String, base: usize, pack: Module, from: usize) -> (phase: Phase)
        requires
            old(self).wf(),
            old(self).has_room(),
            from <= packs_of(pack).len(),
        ensures
            final(self).wf(),
            (final(self).loaded(), phase) == with_subs(old(self).loaded(), key@, base, pack, from as int),
            final(self).modules.count() <= old(self).modules.count() + 1,
            final(self).stdlib == old(self).stdlib,
            final(self).search_paths == old(self).search_paths,
            final(self).deps == old(self).deps,
            phase matches Phase::Sub { pack: p, next, .. } ==> p == pack && next < packs_of(pack).len(),
    {
        let subs = collect_pack_submodules(&pack);
        let dir = dir_name(key);
        let ghost modules = self.loaded().modules;
        let mut i: usize = from;
        while i < subs.len()
            invariant
                i <= subs@.len(),
                subs@ == packs_of(pack),
                self.wf(),
                dir@ == dir_of(key@),
                modules == self.loaded().modules,
                next_needed(modules, dir@, subs@, from as int) == next_needed(modules, dir@, subs@, i as int),
            decreases subs@.len() - i,
        {
            let file = sub_path(&dir, &subs[i]);
            if !self.modules.contains(&file) {
                return Phase::Sub { base, pack, next: i };
            }
            i = i + 1;
        }
        self.hold(key, pack);
        Phase::Done { loaded: true }
    }

    /// Goes on with the embedded files.
    fn go_on_with_siblings(&mut self, key: &String, from: usize) -> (phase: Phase)
        requires
            old(self).wf(),
            from <= old(self).stdlib.files().len(),
        ensures
            final(self).wf(),
            (final(self).loaded(), phase) == with_siblings(
                old(self).loaded(),
                *key,
                old(self).stdlib.files(),
                from as int,
            ),
            final(self).modules.count() == old(self).modules.count(),
            final(self).stdlib == old(self).stdlib,
            final(self).search_paths == old(self).search_paths,
            final(self).deps == old(self).deps,
            phase matches Phase::Sibling { at } ==> at < old(self).stdlib.files().len(),
    {
        let prefix = parent_directory(key);
        let ghost modules = self.loaded().modules;
        let ghost files = self.stdlib.files();
        let mut i: usize = from;
        while i < self.stdlib.len()
            invariant
                i <= files.len() <= usize::MAX,
                files == self.stdlib.files(),
                self.wf(),
                prefix@ == directory_of(key@),
                modules == self.loaded().modules,
                next_sibling(modules, key@, files, from as int) == next_sibling(modules, key@, files, i as int),
            decreases files.len() - i,
        {
            let f = self.stdlib.file_at(i);
            if has_prefix(&f.path, &prefix) && f.path != *key && !self.modules.contains(&f.path) {
                return Phase::Sibling { at: i };
            }
            i = i + 1;
        }
        self.give_up(key);
        self.load_errors.push(LoadError::ModuleNotFound { path: key.clone() });
        Phase::Done { loaded: false }
    }

    /// Whether a loaded module in the file's directory exports its symbol.
    fn is_exported_nearby(&self, key: &String, symbol: &String) -> (r: bool)
        requires
            self.wf(),
            symbol_of(key@) == Some(symbol@),
        ensures
            r == exported_nearby(self.loaded().modules, key@),
    {
        let prefix = parent_directory(key);
        let ghost modules = self.loaded().modules;
        let ghost names = self.modules.names();
        proof {
            self.modules.lemma_names();
        }
        let mut i: usize = 0;
        while i < self.modules.len()
            invariant
                i <= self.modules.count() == names.len(),
                self.wf(),
                names == self.modules.names(),
                modules == self.loaded().modules,
                prefix@ == directory_of(key@),
                symbol_of(key@) == Some(symbol@),
                forall|k: int|
                    0 <= k < i ==> !(starts_with(#[trigger] names[k], directory_of(key@)) && exports_of(
                        modules[names[k]],
                    ).contains(symbol@)),
            decreases self.modules.count() - i,
        {
            let name = self.modules.key_at(i);
            let data = self.modules.val_at(i);
            if has_prefix(name, &prefix) && data.exports.contains(symbol.as_str()) {
                assert(modules.contains_key(name@));
                return true;
            }
            i = i + 1;
        }
        proof {
            if exported_nearby(modules, key@) {
                let n = choose|n: Seq<char>| #[trigger]
                    modules.contains_key(n) && starts_with(n, directory_of(key@)) && exports_of(modules[n]).contains(
                        symbol@,
                    );
                assert(self.modules.has(n));
                let k = choose|k: int| 0 <= k < names.len() && names[k] == n;
                assert(starts_with(names[k], directory_of(key@)));
            }
        }
        false
    }

    /// Takes what came of the last action.
    pub fn advance(&mut self, r: Resolution, ev: Event) -> (next: Resolution)
        requires
            old(self).wf(),
            r.wf(old(self).stdlib),
            old(self).modules.count() + 1 < u32::MAX,
        ensures
            final(self).wf(),
            next.key == r.key,
            (final(self).loaded(), next.phase) == next_phase(
                old(self).loaded(),
                old(self).stdlib.files(),
                r.key,
                r.phase,
                ev,
            ),
            next.wf(final(self).stdlib),
            final(self).stdlib == old(self).stdlib,
            final(self).search_paths == old(self).search_paths,
            final(self).deps == old(self).deps,
            final(self).modules.count() <= old(self).modules.count() + 2,
    {
        let key = r.key;
        let phase = match r.phase {
            Phase::Embedded => match ev {
                Event::Parsed { module, .. } => {
                    self.accept(&key, Ok(module));
                    Phase::Done { loaded: true }
                },
                Event::Failed(e) => {
                    self.accept(&key, Err(e));
                    Phase::Done { loaded: false }
                },
                Event::Absent => Phase::File,
            },
            Phase::File => match ev {
                Event::Parsed { module, .. } => {
                    self.accept(&key, Ok(module));
                    Phase::Done { loaded: true }
                },
                Event::Failed(e) => {
                    self.accept(&key, Err(e));
                    Phase::Done { loaded: false }
                },
                Event::Absent => Phase::Pack,
            },
            Phase::Pack => match ev {
                Event::Parsed { base, module } => self.go_on_with_subs(&key, base, module, 0),
                Event::Failed(e) => {
                    self.accept(&key, Err(e));
                    Phase::Done { loaded: false }
                },
                Event::Absent => match extract_last_segment(&key) {
                    Some(symbol) => {
                        if self.is_exported_nearby(&key, &symbol) {
                            self.give_up(&key);
                            Phase::Done { loaded: false }
                        } else {
                            self.go_on_with_siblings(&key, 0)
                        }
                    },
                    None => Phase::Done { loaded: false },
                },
            },
            Phase::Sub { base, pack, next } => {
                let subs = collect_pack_submodules(&pack);
                if let Event::Parsed { module, .. } = ev {
                    let file = sub_path(&dir_name(&key), &subs[next]);
                    self.hold(&file, module);
                }
                assert(next < subs.len());
                self.go_on_with_subs(&key, base, pack, next + 1)
            },
            Phase::Sibling { at } => {
                let mut found: bool = false;
                if let Event::Parsed { module, .. } = ev {
                    if let Some(symbol) = extract_last_segment(&key) {
                        if collect_exports(&module).contains(symbol.as_str()) {
                            let file = self.stdlib.file_at(at).path.clone();
                            self.hold(&file, module);
                            self.give_up(&key);
                            found = true;
                        }
                    }
                }
                if found {
                    Phase::Done { loaded: false }
                } else {
                    self.go_on_with_siblings(&key, at + 1)
                }
            },
            Phase::Done { loaded } => Phase::Done { loaded },
        };
        Resolution { key, phase }
    }
}

/// What is loaded stays loaded, and what failed stays failed, whatever happens
/// while a module is looked for; a module is done with as loaded only where its
/// file is, and as not loaded only where it will not be tried again.
pub proof fn law_resolution_settles(l: Loaded, files: Seq<StdlibFile>, key: String, phase: Phase, ev: Event)
    requires
        !(phase is Done),
    ensures
        ({
            let (after, next) = next_phase(l, files, key, phase, ev);
            &&& l.modules.dom().subset_of(after.modules.dom())
            &&& l.failed.subset_of(after.failed)
            &&& next == (Phase::Done { loaded: true }) ==> after.modules.contains_key(key@)
            &&& next == (Phase::Done { loaded: false }) ==> after.failed.contains(key@)
            &&& after.errors.len() <= l.errors.len() + 1
        }),
{
}

/// A module that was looked for is answered in the same way when it is looked
/// for again, at once and without another error.
pub proof fn law_second_look_is_answered_at_once(
    l: Loaded,
    files: Seq<StdlibFile>,
    key: String,
    phase: Phase,
    ev: Event,
)
    requires
        !(phase is Done),
        !l.modules.contains_key(key@),
        next_phase(l, files, key, phase, ev).1 is Done,
        phase matches Phase::Sibling { at } ==> files[at as int].path@ != key@,
    ensures
        ({
            let (after, next) = next_phase(l, files, key, phase, ev);
            first_phase(after, files, key@) == next
        }),
{
}

// ---- the import graph ------------------------------------------------------

/// The files of a module's imports.
pub open spec fn import_files(m: Module) -> Set<Seq<char>> {
    Set::new(|n: Seq<char>| exists|i: int| 0 <= i < import_paths(m).len() && file_of(#[trigger] import_paths(m)[i]) == n)
}

/// The files of a module's imports, in order.
pub fn list_import_files(module: &Module) -> (files: Vec<String>)
    ensures
        files@.len() == import_paths(*module).len(),
        forall|n: Seq<char>| #[trigger] has_name(files@, n) <==> import_files(*module).contains(n),
{
    let imports = collect_imports(module);
    let ghost paths = import_paths(*module);
    let mut files: Vec<String> = Vec::new();
    let mut i: usize = 0;
    while i < imports.len()
        invariant
            i <= imports@.len(),
            imports@.len() == paths.len(),
            paths == import_paths(*module),
            imports@ == super::contents::imports_of(*module),
            files@.len() == i,
            forall|k: int| 0 <= k < i ==> (#[trigger] files@[k])@ == file_of(paths[k]),
        decreases imports@.len() - i,
    {
        assert(paths[i as int] == imports@[i as int].path@);
        files.push(module_path_to_file(imports[i].path));
        i = i + 1;
    }
    assert forall|n: Seq<char>| #[trigger] has_name(files@, n) <==> import_files(*module).contains(n) by {
        if has_name(files@, n) {
            let k = choose|k: int| 0 <= k < files@.len() && (#[trigger] files@[k])@ == n;
            assert(file_of(paths[k]) == n);
        }
        if import_files(*module).contains(n) {
            let k = choose|k: int| 0 <= k < paths.len() && file_of(#[trigger] paths[k]) == n;
            assert(files@[k]@ == n);
        }
    }
    files
}

/// Number of imports of the first `k` modules.
pub open spec fn import_total(l: ModuleLoader, k: int) -> nat
    decreases k,
{
    if k <= 0 {
        0
    } else {
        import_total(l, k - 1) + import_paths(l.modules.at(l.modules.names()[k - 1]).module).len()
    }
}

/// The import graph has room for all imports.
pub open spec fn deps_fit(l: ModuleLoader) -> bool {
    &&& l.deps.forward.count() + l.modules.count() <= u32::MAX
    &&& l.deps.reverse.count() + import_total(l, l.modules.count() as int) <= u32::MAX
}

impl ModuleLoader {
    /// Whether the import graph has room for all imports.
    pub fn can_update_deps(&self) -> (r: bool)
        requires
            self.wf(),
        ensures
            r == deps_fit(*self),
    {
        let n = self.modules.len();
        let f = self.deps.forward.len();
        if f > 0xFFFF_FFFF || n > 0xFFFF_FFFF - f {
            return false;
        }
        let mut total = self.deps.reverse.len();
        let ghost base = self.deps.reverse.count();
        if total > 0xFFFF_FFFF {
            return false;
        }
        let mut i: usize = 0;
        while i < n
            invariant
                i <= n == self.modules.count(),
                self.wf(),
                base == self.deps.reverse.count(),
                total == base + import_total(*self, i as int),
                total <= u32::MAX,
            decreases n - i,
        {
            let k = collect_imports(&self.modules.val_at(i).module).len();
            if k > 0xFFFF_FFFF - total {
                proof {
                    lemma_import_total_grows(*self, i + 1, n as int);
                }
                return false;
            }
            total = total + k;
            i = i + 1;
        }
        true
    }

    /// Brings the import graph up to date with the loaded modules.
    pub fn update_deps(&mut self)
        requires
            old(self).wf(),
            deps_fit(*old(self)),
        ensures
            final(self).wf(),
            final(self).loaded() == old(self).loaded(),
            final(self).modules == old(self).modules,
            final(self).stdlib == old(self).stdlib,
            final(self).search_paths == old(self).search_paths,
            forall|a: Seq<char>, b: Seq<char>| #[trigger]
                final(self).deps.imports(a, b) <==> (if old(self).loaded().modules.contains_key(a) {
                    import_files(old(self).loaded().modules[a]).contains(b)
                } else {
                    old(self).deps.imports(a, b)
                }),
    {
        let ghost first = *self;
        let ghost names = self.modules.names();
        let ghost modules = self.loaded().modules;
        proof {
            self.modules.lemma_names();
        }
        let n = self.modules.len();
        let mut i: usize = 0;
        while i < n
            invariant
                i <= n == names.len(),
                n == first.modules.count(),
                self.wf(),
                first.wf(),
                deps_fit(first),
                names == first.modules.names(),
                names.no_duplicates(),
                modules == first.loaded().modules,
                self.modules == first.modules,
                self.load_errors == first.load_errors,
                self.failed_paths == first.failed_paths,
                self.stdlib == first.stdlib,
                self.search_paths == first.search_paths,
                forall|m: Seq<char>| #[trigger] first.modules.has(m) <==> names.contains(m),
                self.deps.forward.count() <= first.deps.forward.count() + i,
                self.deps.reverse.count() <= first.deps.reverse.count() + import_total(first, i as int),
                forall|a: Seq<char>, b: Seq<char>| #[trigger]
                    self.deps.imports(a, b) <==> (if names.take(i as int).contains(a) {
                        import_files(modules[a]).contains(b)
                    } else {
                        first.deps.imports(a, b)
                    }),
            decreases n - i,
        {
            let key = self.modules.key_at(i).clone();
            let files = list_import_files(&self.modules.val_at(i).module);
            let ghost before = self.deps;
            proof {
                lemma_import_total_grows(first, i + 1, n as int);
                assert(modules[key@] == first.modules.at(names[i as int]).module);
                let p = names.take(i as int);
                assert(names.take(i + 1) =~= p.push(key@));
                assert(!p.contains(key@)) by {
                    if p.contains(key@) {
                        let k = choose|k: int| 0 <= k < p.len() && p[k] == key@;
                        assert(names[k] == names[i as int]);
                    }
                }
            }
            let ghost new_files = files@;
            self.deps.set_deps(&key, files);
            i = i + 1;
            assert forall|a: Seq<char>, b: Seq<char>| #[trigger]
                self.deps.imports(a, b) <==> (if names.take(i as int).contains(a) {
                    import_files(modules[a]).contains(b)
                } else {
                    first.deps.imports(a, b)
                }) by {
                let p = names.take(i - 1);
                assert(names.take(i as int) =~= p.push(key@));
                assert(p.push(key@).last() == key@);
                assert(before.imports(a, b) || !before.imports(a, b));
                assert(has_name(new_files, b) <==> import_files(modules[key@]).contains(b));
                if p.contains(a) {
                    let k = choose|k: int| 0 <= k < p.len() && p[k] == a;
                    assert(p.push(key@)[k] == a);
                }
            }
        }
        assert(names.take(i as int) =~= names);
    }

    /// Replaces a module by what its changed source was parsed to, and brings
    /// its imports up to date. A source that cannot be parsed changes nothing.
    pub fn replace_module(&mut self, key: &String, parsed: Option<Module>) -> (ok: bool)
        requires
            old(self).wf(),
            old(self).has_room(),
            parsed matches Some(m) ==> {
                &&& old(self).deps.forward.count() < u32::MAX
                &&& old(self).deps.reverse.count() + import_paths(m).len() <= u32::MAX
            },
        ensures
            final(self).wf(),
            ok == parsed is Some,
            match parsed {
                Some(m) => {
                    &&& final(self).loaded() == old(self).loaded().with(key@, m)
                    &&& forall|a: Seq<char>, b: Seq<char>| #[trigger]
                        final(self).deps.imports(a, b) <==> (if a == key@ {
                            import_files(m).contains(b)
                        } else {
                            old(self).deps.imports(a, b)
                        })
                    &&& final(self).stdlib == old(self).stdlib
                    &&& final(self).search_paths == old(self).search_paths
                },
                None => *final(self) == *old(self),
            },
    {
        match parsed {
            Some(m) => {
                let files = list_import_files(&m);
                self.deps.set_deps(key, files);
                self.hold(key, m);
                true
            },
            None => false,
        }
    }
}

proof fn lemma_import_total_grows(l: ModuleLoader, a: int, b: int)
    requires
        0 <= a <= b,
    ensures
        import_total(l, a) <= import_total(l, b),
    decreases b - a,
{
    if a < b {
        lemma_import_total_grows(l, a, b - 1);
    }
}

// ---- laws ------------------------------------------------------------------

/// What comes of reading a file. One that is parsed is loaded as its module, and
/// nothing else changes; one that is not is reported with the place and the
/// message and not tried again; where there is none, the search goes on: from
/// the embedded files to the search paths, from there to packages.
pub proof fn law_files_are_loaded_or_reported(l: Loaded, files: Seq<StdlibFile>, key: String, phase: Phase, ev: Event)
    requires
        phase is Embedded || phase is File,
    ensures
        ({
            let (after, next) = next_phase(l, files, key, phase, ev);
            &&& ev matches Event::Parsed { module, .. } ==> {
                &&& next == (Phase::Done { loaded: true })
                &&& after.modules.contains_key(key@) && after.modules[key@] == module
                &&& forall|n: Seq<char>| #![trigger after.modules.contains_key(n)]
                    n != key@ ==> (after.modules.contains_key(n) <==> l.modules.contains_key(n)) && after.modules[n]
                        == l.modules[n]
                &&& after.failed == l.failed && after.errors == l.errors
            }
            &&& ev matches Event::Failed(e) ==> {
                &&& next == (Phase::Done { loaded: false })
                &&& after.modules == l.modules
                &&& after.failed.contains(key@)
                &&& after.errors.len() == l.errors.len() + 1
                &&& after.errors.last() == (LoadError::ParseFailed {
                    path: key,
                    line: e.line,
                    column: e.column,
                    message: e.message,
                })
            }
            &&& ev is Absent ==> after == l && (phase is Embedded ==> next is File) && (phase is File ==> next is Pack)
        }),
{
}

/// Where neither a file nor a package is found, the module is taken for a name
/// that a module of the directory exports, if one does: then nothing is
/// reported. Else the embedded files of the directory are tried, and only where
/// none is left the module is reported as not found.
pub proof fn law_missing_modules_are_reported_last(l: Loaded, files: Seq<StdlibFile>, key: String, n: Seq<char>)
    ensures
        ({
            let (after, next) = next_phase(l, files, key, Phase::Pack, Event::Absent);
            &&& l.modules.contains_key(n) && starts_with(n, directory_of(key@)) && exports_of(l.modules[n]).contains(
                symbol_of(key@)->0,
            ) ==> next == (Phase::Done { loaded: false }) && after.errors == l.errors && after.failed.contains(key@)
            &&& next is Done && after.errors != l.errors ==> {
                &&& after.errors == l.errors.push(LoadError::ModuleNotFound { path: key })
                &&& after.failed.contains(key@)
                &&& forall|i: int|
                    0 <= i < files.len() ==> !((#[trigger] files[i]).path@ != key@ && starts_with(
                        files[i].path@,
                        directory_of(key@),
                    ) && !l.modules.contains_key(files[i].path@))
            }
            &&& next matches Phase::Sibling { at } ==> files.len() <= usize::MAX ==> at < files.len() && files[at as int].path@
                != key@ && starts_with(files[at as int].path@, directory_of(key@)) && !l.modules.contains_key(
                files[at as int].path@,
            )
        }),
{
    lemma_next_sibling(l.modules, key@, files, 0);
    if l.modules.contains_key(n) && starts_with(n, directory_of(key@)) && exports_of(l.modules[n]).contains(
        symbol_of(key@)->0,
    ) {
        assert(exported_nearby(l.modules, key@));
    }
}

proof fn lemma_next_sibling(modules: Map<Seq<char>, Module>, key: Seq<char>, files: Seq<StdlibFile>, k: int)
    requires
        0 <= k <= files.len(),
    ensures
        ({
            let n = next_sibling(modules, key, files, k);
            &&& k <= n <= files.len()
            &&& n < files.len() ==> worth_trying(modules, key, files[n])
            &&& forall|i: int| k <= i < n ==> !worth_trying(modules, key, #[trigger] files[i])
        }),
    decreases files.len() - k,
{
    if k < files.len() && !worth_trying(modules, key, files[k]) {
        lemma_next_sibling(modules, key, files, k + 1);
    }
}

/// The submodules of a package are read one after the other, those that are
/// loaded already left out, each from the package's directory; then the package
/// stands for the module.
pub proof fn law_submodules_are_read_in_order(l: Loaded, key: Seq<char>, base: usize, pack: Module, k: int)
    requires
        0 <= k <= packs_of(pack).len() <= usize::MAX,
    ensures
        ({
            let (after, next) = with_subs(l, key, base, pack, k);
            let subs = packs_of(pack);
            match next {
                Phase::Sub { base: b, pack: p, next: i } => {
                    &&& after == l && b == base && p == pack && k <= i < subs.len()
                    &&& !l.modules.contains_key(dir_of(key) + seq!['/'] + subs[i as int]@ + suffix())
                    &&& forall|j: int|
                        k <= j < i ==> l.modules.contains_key(dir_of(key) + seq!['/'] + (#[trigger] subs[j])@ + suffix())
                },
                Phase::Done { loaded } => {
                    &&& loaded && after.modules == l.modules.insert(key, pack) && after.errors == l.errors
                    &&& forall|j: int|
                        k <= j < subs.len() ==> l.modules.contains_key(
                            dir_of(key) + seq!['/'] + (#[trigger] subs[j])@ + suffix(),
                        )
                },
                _ => false,
            }
        }),
{
    let subs = packs_of(pack);
    lemma_next_needed(l.modules, dir_of(key), subs, k);
    assert forall|j: int| 0 <= j < subs.len() implies sub_file(dir_of(key), (#[trigger] subs[j])@) == dir_of(key) + seq![
        '/',
    ] + subs[j]@ + suffix() by {
        assert(sub_file(dir_of(key), subs[j]@) =~= dir_of(key) + seq!['/'] + subs[j]@ + suffix());
    }
}

proof fn lemma_next_needed(modules: Map<Seq<char>, Module>, dir: Seq<char>, subs: Seq<String>, k: int)
    requires
        0 <= k <= subs.len(),
    ensures
        ({
            let n = next_needed(modules, dir, subs, k);
            &&& k <= n <= subs.len()
            &&& n < subs.len() ==> !modules.contains_key(sub_file(dir, subs[n]@))
            &&& forall|j: int| k <= j < n ==> modules.contains_key(sub_file(dir, (#[trigger] subs[j])@))
        }),
    decreases subs.len() - k,
{
    if k < subs.len() && modules.contains_key(sub_file(dir, subs[k]@)) {
        lemma_next_needed(modules, dir, subs, k + 1);
    }
}

/// A module that is loaded is answered at once, and so is one that failed; an
/// embedded file is taken before one of the search paths.
pub proof fn law_where_a_search_starts(l: Loaded, files: Seq<StdlibFile>, key: Seq<char>, i: int)
    ensures
        l.modules.contains_key(key) ==> first_phase(l, files, key) == (Phase::Done { loaded: true }),
        !l.modules.contains_key(key) && l.failed.contains(key) ==> first_phase(l, files, key) == (Phase::Done {
            loaded: false,
        }),
        !l.modules.contains_key(key) && !l.failed.contains(key) && 0 <= i < files.len() && files[i].path@ == key
            ==> first_phase(l, files, key) is Embedded,
        !l.modules.contains_key(key) && !l.failed.contains(key) && (forall|j: int|
            0 <= j < files.len() ==> (#[trigger] files[j]).path@ != key) ==> first_phase(l, files, key) is File,
{
    if 0 <= i < files.len() && files[i].path@ == key {
        lemma_some_first(files, is_file(key), i);
    }
    if forall|j: int| 0 <= j < files.len() ==> (#[trigger] files[j]).path@ != key {
        lemma_first_none(files, is_file(key));
    }
}

proof fn lemma_some_first<T>(s: Seq<T>, f: spec_fn(T) -> bool, i: int)
    requires
        0 <= i < s.len(),
        f(s[i]),
    ensures
        first(s, f) is Some,
    decreases s.len(),
{
    if !f(s[0]) {
        assert(s.skip(1)[i - 1] == s[i]);
        lemma_some_first(s.skip(1), f, i - 1);
    }
}

/// Every file that is always loaded and could be parsed is loaded, and every
/// other one is reported and not tried again.
pub proof fn law_builtin_files_are_loaded(
    l: Loaded,
    files: Seq<StdlibFile>,
    parsed: Seq<Result<Module, ParseFailure>>,
    k: int,
    i: int,
)
    requires
        0 <= i < k <= files.len(),
    ensures
        parsed[i] is Ok ==> preloaded(l, files, parsed, k).modules.contains_key(files[i].path@),
        parsed[i] is Err ==> preloaded(l, files, parsed, k).failed.contains(files[i].path@),
        l.modules.dom().subset_of(preloaded(l, files, parsed, k).modules.dom()),
        parsed[i] is Ok && (forall|j: int| i < j < k ==> (#[trigger] files[j]).path@ != files[i].path@) ==> preloaded(
            l,
            files,
            parsed,
            k,
        ).modules[files[i].path@] == parsed[i]->Ok_0,
    decreases k,
{
    if i < k - 1 {
        law_builtin_files_are_loaded(l, files, parsed, k - 1, i);
        if forall|j: int| i < j < k ==> (#[trigger] files[j]).path@ != files[i].path@ {
            assert(files[k - 1].path@ != files[i].path@);
        }
    } else {
        lemma_preloading_keeps(l, files, parsed, k - 1);
    }
}

proof fn lemma_preloading_keeps(l: Loaded, files: Seq<StdlibFile>, parsed: Seq<Result<Module, ParseFailure>>, k: int)
    ensures
        l.modules.dom().subset_of(preloaded(l, files, parsed, k).modules.dom()),
    decreases k,
{
    if k > 0 {
        lemma_preloading_keeps(l, files, parsed, k - 1);
    }
}

} // verus!
