//! A project: its manifest, its files and the choices of the command line.

use crate::pass::driver::OptLevel;
use vstd::prelude::*;
use vstd::string::{StrSliceExecFns, StringExecFns};

verus! {

/// The name of a project's manifest.
pub const MANIFEST_NAME: &'static str = "kuzo.toml";

/// The entry file of a project that names none.
pub const DEFAULT_ENTRY: &'static str = "src/Main.kz";

/// The output directory of a project that names none.
pub const DEFAULT_OUTPUT_DIR: &'static str = "out";

/// How many directories are searched for a manifest, from the current one up.
pub const ROOT_SEARCH_DEPTH: usize = 64;

/// A manifest as it is written: what may be left out may be absent.
#[derive(Debug)]
pub struct RawManifest {
    pub name: String,
    pub entry: Option<String>,
    pub output_dir: Option<String>,
    pub opt_level: Option<u8>,
}

/// A manifest with nothing left out.
#[derive(Debug)]
pub struct Manifest {
    pub name: String,
    pub entry: String,
    pub output_dir: String,
    pub opt_level: u8,
}

/// The text, or another one where there is none.
pub open spec fn text_or(o: Option<String>, default: Seq<char>) -> Seq<char> {
    match o {
        Some(s) => s@,
        None => default,
    }
}

pub fn default_entry() -> (r: String)
    ensures
        r@ == DEFAULT_ENTRY@,
{
    DEFAULT_ENTRY.to_string()
}

pub fn default_output_dir() -> (r: String)
    ensures
        r@ == DEFAULT_OUTPUT_DIR@,
{
    DEFAULT_OUTPUT_DIR.to_string()
}

pub fn default_opt_level() -> (r: u8)
    ensures
        r == 2,
{
    2
}

/// Fills in what a manifest leaves out, whether a value or a whole section.
pub fn fill_manifest(raw: RawManifest) -> (m: Manifest)
    ensures
        m.name == raw.name,
        m.entry@ == text_or(raw.entry, DEFAULT_ENTRY@),
        m.output_dir@ == text_or(raw.output_dir, DEFAULT_OUTPUT_DIR@),
        m.opt_level == (match raw.opt_level {
            Some(n) => n,
            None => 2,
        }),
{
    Manifest {
        name: raw.name,
        entry: match raw.entry {
            Some(e) => e,
            None => default_entry(),
        },
        output_dir: match raw.output_dir {
            Some(d) => d,
            None => default_output_dir(),
        },
        opt_level: match raw.opt_level {
            Some(n) => n,
            None => default_opt_level(),
        },
    }
}

// ---- optimization level ----------------------------------------------------

/// The level of a number: the usual one where none is given, the highest one
/// where the number is out of range.
pub open spec fn level_of(v: Option<u8>) -> OptLevel {
    match v {
        None => OptLevel::O2,
        Some(n) => if n == 0 {
            OptLevel::O0
        } else if n == 1 {
            OptLevel::O1
        } else if n == 2 {
            OptLevel::O2
        } else {
            OptLevel::O3
        },
    }
}

/// The level of a number, and whether the number was out of range.
pub fn opt_level_from(v: Option<u8>) -> (r: (OptLevel, bool))
    ensures
        r.0 == level_of(v),
        r.1 == (v matches Some(n) && n > 3),
{
    match v {
        None => (OptLevel::default(), false),
        Some(0) => (OptLevel::O0, false),
        Some(1) => (OptLevel::O1, false),
        Some(2) => (OptLevel::O2, false),
        Some(3) => (OptLevel::O3, false),
        Some(_) => (OptLevel::O3, true),
    }
}

/// The level to compile with: that of the command line, else that of the
/// manifest. Tells also whether it was out of range.
pub fn choose_opt_level(cli: Option<u8>, manifest: &Manifest) -> (r: (OptLevel, bool))
    ensures
        ({
            let n = match cli {
                Some(n) => n,
                None => manifest.opt_level,
            };
            r.0 == level_of(Some(n)) && r.1 == (n > 3)
        }),
{
    match cli {
        Some(n) => opt_level_from(Some(n)),
        None => opt_level_from(Some(manifest.opt_level)),
    }
}

// ---- paths -----------------------------------------------------------------

/// A path below a directory.
pub open spec fn below(dir: Seq<char>, path: Seq<char>) -> Seq<char> {
    dir.push('/') + path
}

/// A path of the manifest: as it stands where it is absolute, else below the
/// project's root.
pub open spec fn placed(root: Seq<char>, path: Seq<char>, absolute: bool) -> Seq<char> {
    if absolute {
        path
    } else {
        below(root, path)
    }
}

fn join(dir: &String, path: &String) -> (r: String)
    ensures
        r@ == below(dir@, path@),
{
    let mut r = dir.clone();
    r.append("/");
    r.append(path.as_str());
    proof {
        reveal_strlit("/");
    }
    assert(r@ =~= below(dir@, path@));
    r
}

/// A path of the manifest; `absolute` tells whether it is absolute.
pub fn place(root: &String, path: &String, absolute: bool) -> (r: String)
    ensures
        r@ == placed(root@, path@, absolute),
{
    if absolute {
        path.clone()
    } else {
        join(root, path)
    }
}

/// The artifact of a project in its output directory.
pub open spec fn artifact_path(dir: Seq<char>, name: Seq<char>) -> Seq<char> {
    below(dir, name) + ".kzo"@
}

/// Where the artifact goes: where the command line says, else into the output
/// directory under the project's name. Gives also the directory that has to
/// exist.
pub fn output_path(output: Option<String>, root: &String, manifest: &Manifest, absolute: bool) -> (r: (
    String,
    Option<String>,
))
    ensures
        match output {
            Some(o) => r.0 == o && r.1 is None,
            None => {
                &&& r.1 matches Some(d) && d@ == placed(root@, manifest.output_dir@, absolute)
                &&& r.0@ == artifact_path(placed(root@, manifest.output_dir@, absolute), manifest.name@)
            },
        },
{
    match output {
        Some(o) => (o, None),
        None => {
            let dir = place(root, &manifest.output_dir, absolute);
            let mut file = join(&dir, &manifest.name);
            file.append(".kzo");
            (file, Some(dir))
        },
    }
}

/// Whether a path is that of an artifact.
pub open spec fn names_artifact(path: Seq<char>) -> bool {
    path.len() >= 4 && path.skip(path.len() - 4) == ".kzo"@
}

/// Whether a path is that of an artifact.
pub fn is_artifact(path: &String) -> (r: bool)
    ensures
        r == names_artifact(path@),
{
    let s = path.as_str();
    let n = s.unicode_len();
    if n < 4 {
        return false;
    }
    let tail = s.substring_char(n - 4, n);
    assert(tail@ =~= path@.skip(path@.len() - 4));
    tail.to_string() == ".kzo".to_string()
}

/// Every artifact path that is made up is recognized as one.
pub proof fn law_artifacts_are_recognized(dir: Seq<char>, name: Seq<char>)
    ensures
        names_artifact(artifact_path(dir, name)),
{
    reveal_strlit(".kzo");
    let p = artifact_path(dir, name);
    assert(p.skip(p.len() - 4) =~= ".kzo"@);
}

/// The nearest directory with a manifest, of the current one and those above
/// it; `found` tells for each whether it has one. Only so many are looked at.
pub fn find_project_root(found: &Vec<bool>) -> (r: Option<usize>)
    ensures
        match r {
            Some(i) => i < found@.len() && i < ROOT_SEARCH_DEPTH && found@[i as int] && forall|k: int|
                0 <= k < i ==> !found@[k],
            None => forall|k: int| 0 <= k < found@.len() && k < ROOT_SEARCH_DEPTH ==> !found@[k],
        },
{
    let mut i: usize = 0;
    while i < found.len() && i < ROOT_SEARCH_DEPTH
        invariant
            i <= found@.len(),
            forall|k: int| 0 <= k < i ==> !found@[k],
        decreases found@.len() - i,
    {
        if found[i] {
            return Some(i);
        }
        i = i + 1;
    }
    None
}

// ---- a new project ---------------------------------------------------------

/// The files of a new project.
#[derive(Debug)]
pub struct NewProject {
    pub name: String,
    pub manifest_path: String,
    pub src_dir: String,
    pub main_path: String,
    pub manifest_text: String,
    pub main_text: String,
}

/// A path in the directory of a new project; the current one has no name.
pub open spec fn in_dir(dir: Seq<char>, path: Seq<char>) -> Seq<char> {
    if dir.len() == 0 {
        path
    } else {
        below(dir, path)
    }
}

fn path_in(dir: &String, path: &str) -> (r: String)
    ensures
        r@ == in_dir(dir@, path@),
{
    if dir.as_str().unicode_len() == 0 {
        path.to_string()
    } else {
        join(dir, &path.to_string())
    }
}

/// The manifest of a new project.
pub open spec fn manifest_for(name: Seq<char>) -> Seq<char> {
    "[package]\nname = \""@ + name + "\"\nentry = \""@ + DEFAULT_ENTRY@ + "\"\n\n[build]\noutput_dir = \""@
        + DEFAULT_OUTPUT_DIR@ + "\"\nopt_level = 2\n"@
}

/// The files of a new project in a directory. The project has the name of the
/// directory, where it has one.
pub fn new_project(dir: &String, base_name: Option<String>) -> (p: NewProject)
    ensures
        p.name@ == text_or(base_name, "app"@),
        p.manifest_path@ == in_dir(dir@, MANIFEST_NAME@),
        p.src_dir@ == in_dir(dir@, "src"@),
        p.main_path@ == in_dir(dir@, DEFAULT_ENTRY@),
        p.manifest_text@ == manifest_for(p.name@),
        p.main_text@ == "fun main(): void {\n    println(\"Hello, Kuzo!\")\n}\n"@,
{
    let name = match base_name {
        Some(n) => n,
        None => "app".to_string(),
    };
    let mut text: String = "[package]\nname = \"".to_string();
    text.append(name.as_str());
    text.append("\"\nentry = \"");
    text.append(DEFAULT_ENTRY);
    text.append("\"\n\n[build]\noutput_dir = \"");
    text.append(DEFAULT_OUTPUT_DIR);
    text.append("\"\nopt_level = 2\n");
    NewProject {
        name,
        manifest_path: path_in(dir, MANIFEST_NAME),
        src_dir: path_in(dir, "src"),
        main_path: path_in(dir, DEFAULT_ENTRY),
        manifest_text: text,
        main_text: "fun main(): void {\n    println(\"Hello, Kuzo!\")\n}\n".to_string(),
    }
}

// ---- lint ------------------------------------------------------------------

#[derive(Clone, Copy, Debug, PartialEq, Eq, Structural)]
pub enum Severity {
    Error,
    Warning,
    Advice,
}

/// Whether a finding makes the run fail: an error does, a warning where
/// warnings are denied.
pub open spec fn fails(s: Severity, deny: Option<String>) -> bool {
    s == Severity::Error || (s == Severity::Warning && (deny matches Some(d) && d@ == "warning"@))
}

/// Whether the findings make the run fail.
pub fn lint_fails(found: &Vec<Severity>, deny: &Option<String>) -> (r: bool)
    ensures
        r == exists|i: int| 0 <= i < found@.len() && fails(#[trigger] found@[i], *deny),
{
    let deny_warnings: bool = match deny {
        Some(d) => *d == "warning".to_string(),
        None => false,
    };
    let mut i: usize = 0;
    while i < found.len()
        invariant
            i <= found@.len(),
            deny_warnings == (*deny matches Some(d) && d@ == "warning"@),
            forall|k: int| 0 <= k < i ==> !fails(#[trigger] found@[k], *deny),
        decreases found@.len() - i,
    {
        if found[i] == Severity::Error || (found[i] == Severity::Warning && deny_warnings) {
            assert(fails(found@[i as int], *deny));
            return true;
        }
        i = i + 1;
    }
    false
}

// ---- laws ------------------------------------------------------------------

/// Levels are numbered from 0; a number above 3 is the highest one, and none the
/// usual one.
pub proof fn law_levels_are_numbered(n: u8)
    ensures
        level_of(Some(0)) == OptLevel::O0,
        level_of(Some(1)) == OptLevel::O1,
        level_of(Some(2)) == OptLevel::O2,
        n >= 3 ==> level_of(Some(n)) == OptLevel::O3,
        level_of(None) == level_of(Some(2)),
{
}

/// Errors fail a run, advice never does, and a warning does exactly where
/// warnings are denied.
pub proof fn law_what_fails_a_run(s: Severity, deny: Option<String>)
    ensures
        s == Severity::Error ==> fails(s, deny),
        s == Severity::Advice ==> !fails(s, deny),
        s == Severity::Warning ==> (fails(s, deny) <==> deny is Some && deny->0@ == "warning"@),
{
}

/// An absolute path is taken as it is, another one below the root.
pub proof fn law_relative_paths_are_below_the_root(root: Seq<char>, path: Seq<char>)
    ensures
        placed(root, path, true) == path,
        placed(root, path, false).take(root.len() as int) == root,
        placed(root, path, false)[root.len() as int] == '/',
        placed(root, path, false).skip(root.len() as int + 1) == path,
{
    let p = placed(root, path, false);
    assert(p.take(root.len() as int) =~= root);
    assert(p.skip(root.len() as int + 1) =~= path);
}

} // verus!
