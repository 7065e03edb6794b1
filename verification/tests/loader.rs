use kuzo::ast::tree::{Decl, Expr, ExprId, ExprKind, FunDecl, Module, Visibility};
use kuzo::module::contents::{collect_exports, collect_imports, collect_pack_submodules};
use kuzo::module::loader::{
    Action, Event, LoadError, ModuleLoader, ParseFailure, Resolution, Stdlib, StdlibFile,
};
use kuzo::module::paths::{extract_last_segment, module_path_to_file, parent_directory};
use kuzo::name_table::NameTable;

fn path(segments: &[&str]) -> Vec<String> {
    segments.iter().map(|s| s.to_string()).collect()
}

fn import(segments: &[&str]) -> Decl {
    Decl::Import { path: path(segments), items: None }
}

fn pack(name: &str) -> Decl {
    Decl::Pack { name: name.to_string(), visibility: Visibility::Public }
}

fn fun(name: &str, visibility: Visibility) -> Decl {
    Decl::Fun(FunDecl {
        name: name.to_string(),
        params: Vec::new(),
        body: Expr { id: ExprId(0), kind: ExprKind::VoidLit },
        is_async: false,
        visibility,
        is_entry: false,
        attributes: Vec::new(),
        has_extern_c_body: false,
    })
}

fn module(declarations: Vec<Decl>) -> Module {
    Module { name: "m".to_string(), declarations }
}

fn file(p: &str) -> StdlibFile {
    StdlibFile { path: p.to_string(), source: format!("source of {}", p) }
}

fn loader() -> ModuleLoader {
    ModuleLoader::new(Stdlib {
        builtin: vec![file("builtin/io/Raw.frond")],
        std: vec![file("std/time/SystemTime.frond"), file("std/time/Clock.frond"), file("std/io/File.frond")],
    })
}

fn parsed(m: Module) -> Event {
    Event::Parsed { base: 0, module: m }
}

fn run(l: &mut ModuleLoader, p: &[&str], answers: Vec<Event>) -> (bool, Vec<String>) {
    let mut asked = Vec::new();
    let mut answers = answers.into_iter();
    let mut r: Resolution = l.resolve_and_load(&path(p));
    loop {
        match l.action(&r) {
            Action::Finish { loaded } => return (loaded, asked),
            Action::ParseEmbedded { file } => asked.push(format!("embedded {}", file)),
            Action::ReadFile { file } => asked.push(format!("file {}", file)),
            Action::ReadPack { dir } => asked.push(format!("pack {}", dir)),
            Action::ReadSub { base, file } => asked.push(format!("sub {} {}", base, file)),
            Action::ParseSibling { file } => asked.push(format!("sibling {}", file)),
        }
        r = l.advance(r, answers.next().unwrap());
    }
}

#[test]
fn module_paths() {
    assert_eq!(module_path_to_file(&path(&["std", "io", "File"])), "std/io/File.frond");
    assert_eq!(module_path_to_file(&path(&["a.frond"])), "a.frond");
    assert_eq!(module_path_to_file(&path(&[])), ".frond");
    assert_eq!(
        extract_last_segment(&"std/time/TimeComponents.frond".to_string()),
        Some("TimeComponents".to_string())
    );
    assert_eq!(extract_last_segment(&"std/time/x".to_string()), None);
    assert_eq!(parent_directory(&"std/time/TimeComponents.frond".to_string()), "std/time/");
    assert_eq!(parent_directory(&"Main.frond".to_string()), "");
}

#[test]
fn exports_and_submodules() {
    let m = module(vec![
        fun("open", Visibility::Public),
        fun("hidden", Visibility::Private),
        pack("Memory"),
        Decl::Pack { name: "Inner".to_string(), visibility: Visibility::Private },
        import(&["std", "io", "File"]),
    ]);
    let e = collect_exports(&m);
    assert!(e.contains("open") && e.contains("Memory"));
    assert!(!e.contains("hidden") && !e.contains("Inner"));
    assert_eq!(collect_pack_submodules(&m), vec!["Memory".to_string()]);
    assert_eq!(collect_imports(&m).len(), 1);
    assert_eq!(*collect_imports(&m)[0].path, path(&["std", "io", "File"]));
}

#[test]
fn embedded_files_come_first() {
    let mut l = loader();
    assert_eq!(l.stdlib.find(&"std/io/File.frond".to_string()).map(|s| s.as_str()), Some("source of std/io/File.frond"));
    assert!(l.stdlib.find(&"std/io/Nope.frond".to_string()).is_none());
    let (ok, asked) = run(&mut l, &["std", "io", "File"], vec![parsed(module(vec![]))]);
    assert!(ok);
    assert_eq!(asked, vec!["embedded std/io/File.frond".to_string()]);
    let (ok, asked) = run(&mut l, &["std", "io", "File"], vec![]);
    assert!(ok && asked.is_empty());
    assert_eq!(l.loaded_keys(), vec!["std/io/File.frond".to_string()]);
    assert!(l.get_module_by_key(&"std/io/File.frond".to_string()).is_some());
}

#[test]
fn parse_failures_are_reported_once() {
    let mut l = loader();
    let failure = ParseFailure { line: 3, column: 4, message: "bad".to_string() };
    let (ok, _) = run(&mut l, &["User"], vec![Event::Failed(failure)]);
    assert!(!ok);
    let (ok, asked) = run(&mut l, &["User"], vec![]);
    assert!(!ok && asked.is_empty());
    assert_eq!(l.load_errors().len(), 1);
    assert!(matches!(
        &l.load_errors()[0],
        LoadError::ParseFailed { path, line: 3, column: 4, message } if path == "User.frond" && message == "bad"
    ));
}

#[test]
fn missing_modules_are_reported() {
    let mut l = loader();
    let (ok, asked) = run(&mut l, &["Nope"], vec![
        Event::Absent, Event::Absent, Event::Absent, Event::Absent, Event::Absent, Event::Absent,
    ]);
    assert!(!ok);
    assert_eq!(asked[0], "file Nope.frond");
    assert_eq!(asked[1], "pack Nope");
    // Without a directory every embedded file is a sibling.
    assert_eq!(asked.len(), 6);
    assert!(l.has_load_errors());
    assert!(matches!(&l.load_errors()[0], LoadError::ModuleNotFound { path } if path == "Nope.frond"));
}

#[test]
fn directory_modules_load_their_parts() {
    let mut l = loader();
    let store = module(vec![pack("Memory"), pack("Disk")]);
    let (ok, asked) = run(&mut l, &["Store"], vec![
        Event::Absent,
        Event::Parsed { base: 1, module: store },
        parsed(module(vec![])),
        Event::Absent,
    ]);
    assert!(ok);
    assert_eq!(asked[2], "sub 1 Store/Memory.frond");
    assert_eq!(asked[3], "sub 1 Store/Disk.frond");
    assert!(l.get_module_by_key(&"Store/Memory.frond".to_string()).is_some());
    assert!(l.get_module_by_key(&"Store/Disk.frond".to_string()).is_none());
    assert!(l.get_module_by_key(&"Store.frond".to_string()).is_some());
    assert!(!l.has_load_errors());
}

#[test]
fn symbols_of_sibling_modules_are_no_error() {
    let mut l = loader();
    let (ok, asked) = run(&mut l, &["std", "time", "TimeComponents"], vec![
        Event::Absent,
        Event::Absent,
        parsed(module(vec![fun("TimeComponents", Visibility::Public)])),
    ]);
    assert!(!ok);
    assert_eq!(asked[2], "sibling std/time/SystemTime.frond");
    assert!(!l.has_load_errors());
    assert!(l.get_module_by_key(&"std/time/SystemTime.frond".to_string()).is_some());
    let (ok, asked) = run(&mut l, &["std", "time", "Other"], vec![Event::Absent, Event::Absent, Event::Absent]);
    assert!(!ok);
    assert_eq!(asked[2], "sibling std/time/Clock.frond");
    assert_eq!(l.load_errors().len(), 1);
}

fn walk(l: &mut ModuleLoader, entry: &Module, modules: Vec<(&str, Module)>) -> Vec<String> {
    for (key, m) in modules {
        l.accept(&key.to_string(), Ok(m));
    }
    let mut w = l.load_transitive_imports(entry);
    while w.next(l).is_some() {
        w.expand(l);
    }
    w.finish()
}

#[test]
fn imports_come_before_importers() {
    let mut l = loader();
    let entry = module(vec![import(&["A"]), import(&["B"])]);
    let order = walk(&mut l, &entry, vec![
        ("A.frond", module(vec![import(&["C"])])),
        ("B.frond", module(vec![import(&["A"]), import(&["builtin", "io", "Raw"])])),
        ("C.frond", module(vec![])),
        ("builtin/io/Raw.frond", module(vec![])),
    ]);
    assert_eq!(order, path(&["C.frond", "A.frond", "B.frond"]));
    assert!(!l.has_load_errors());
    assert_eq!(l.builtin_modules().len(), 1);
}

#[test]
fn circles_are_reported() {
    let mut l = loader();
    let entry = module(vec![import(&["A"])]);
    let order = walk(&mut l, &entry, vec![
        ("A.frond", module(vec![import(&["B"])])),
        ("B.frond", module(vec![import(&["A"])])),
    ]);
    assert_eq!(order, path(&["B.frond", "A.frond"]));
    assert_eq!(l.load_errors().len(), 1);
    assert!(matches!(&l.load_errors()[0], LoadError::CircularImport { path } if path == "A.frond"));
}

#[test]
fn packages_lead_to_their_submodules() {
    let mut l = loader();
    let entry = module(vec![import(&["Store"])]);
    let order = walk(&mut l, &entry, vec![
        ("Store.frond", module(vec![pack("Memory")])),
        ("Store/Memory.frond", module(vec![])),
    ]);
    assert_eq!(order, path(&["Store/Memory.frond", "Store.frond"]));
}

#[test]
fn changes_spread_to_importers() {
    let mut l = loader();
    for (key, m) in [
        ("A.frond", module(vec![import(&["B"])])),
        ("B.frond", module(vec![import(&["C"])])),
        ("C.frond", module(vec![])),
        ("D.frond", module(vec![])),
    ] {
        l.accept(&key.to_string(), Ok(m));
    }
    assert!(l.can_update_deps());
    l.update_deps();
    let dirty = l.deps.dirty_closure(&"C.frond".to_string());
    assert!(dirty.contains("C.frond") && dirty.contains("B.frond") && dirty.contains("A.frond"));
    assert!(!dirty.contains("D.frond"));
    assert_eq!(l.deps.get_forward_deps(&"A.frond".to_string()), Some(&path(&["B.frond"])));
    assert_eq!(l.deps.get_reverse_deps(&"C.frond".to_string()), Some(&path(&["B.frond"])));
    assert!(l.deps.get_forward_deps(&"X.frond".to_string()).is_none());
    assert!(!l.replace_module(&"B.frond".to_string(), None));
    assert!(l.replace_module(&"B.frond".to_string(), Some(module(vec![import(&["D"])]))));
    let dirty = l.deps.dirty_closure(&"C.frond".to_string());
    assert!(!dirty.contains("B.frond"));
    let dirty = l.deps.dirty_closure(&"D.frond".to_string());
    assert!(dirty.contains("A.frond") && dirty.contains("B.frond"));
}

#[test]
fn builtin_files_are_loaded_first() {
    let mut l = loader();
    l.preload_builtins(vec![Ok(module(vec![fun("print", Visibility::Public)]))]);
    assert_eq!(l.loaded_keys(), vec!["builtin/io/Raw.frond".to_string()]);
    assert_eq!(l.builtin_modules()[0].0.as_str(), "builtin/io/Raw.frond");
    let mut l = loader();
    l.preload_builtins(vec![Err(ParseFailure { line: 1, column: 2, message: "bad".to_string() })]);
    assert!(l.builtin_modules().is_empty());
    assert!(matches!(&l.load_errors()[0], LoadError::ParseFailed { path, line: 1, column: 2, .. }
        if path == "builtin/io/Raw.frond"));
}

#[test]
fn search_paths_keep_their_order() {
    let mut l = loader();
    l.add_search_path("src".to_string());
    l.add_search_path("lib".to_string());
    assert_eq!(l.search_paths, path(&["src", "lib"]));
    assert!(l.can_hold_more());
}

#[test]
fn name_tables_keep_their_order() {
    let mut t: NameTable<u32> = NameTable::new();
    t.put(&"b".to_string(), 1);
    t.put(&"a".to_string(), 2);
    t.put(&"b".to_string(), 3);
    assert_eq!(t.len(), 2);
    assert_eq!((t.key_at(0).as_str(), *t.val_at(0)), ("b", 3));
    assert_eq!(t.get(&"a".to_string()), Some(&2));
    assert!(!t.contains(&"c".to_string()));
}

#[test]
fn replacing_a_module_keeps_the_search_paths() {
    let mut l = loader();
    l.add_search_path("src".to_string());
    l.accept(&"A.frond".to_string(), Ok(module(vec![])));
    assert!(l.replace_module(&"A.frond".to_string(), Some(module(vec![import(&["B"])]))));
    assert_eq!(l.search_paths, path(&["src"]));
    assert_eq!(l.loaded_keys(), vec!["A.frond".to_string()]);
}
