use kuzo::pass::driver::OptLevel;
use kuzo::project::{
    choose_opt_level, default_entry, default_opt_level, default_output_dir, fill_manifest, find_project_root,
    is_artifact, lint_fails, new_project, opt_level_from, output_path, place, Manifest, RawManifest, Severity,
    DEFAULT_ENTRY, MANIFEST_NAME,
};

fn manifest() -> Manifest {
    fill_manifest(RawManifest { name: "demo".to_string(), entry: None, output_dir: None, opt_level: None })
}

#[test]
fn left_out_values_are_filled_in() {
    let m = manifest();
    assert_eq!((m.entry.as_str(), m.output_dir.as_str(), m.opt_level), ("src/Main.kz", "out", 2));
    assert_eq!(default_entry(), DEFAULT_ENTRY);
    assert_eq!(default_output_dir(), "out");
    assert_eq!(default_opt_level(), 2);
    let m = fill_manifest(RawManifest {
        name: "x".to_string(),
        entry: Some("a.kz".to_string()),
        output_dir: Some("b".to_string()),
        opt_level: Some(0),
    });
    assert_eq!((m.entry.as_str(), m.output_dir.as_str(), m.opt_level), ("a.kz", "b", 0));
}

#[test]
fn levels_are_clamped() {
    assert_eq!(opt_level_from(None), (OptLevel::O2, false));
    assert_eq!(opt_level_from(Some(0)), (OptLevel::O0, false));
    assert_eq!(opt_level_from(Some(3)), (OptLevel::O3, false));
    assert_eq!(opt_level_from(Some(4)), (OptLevel::O3, true));
    assert_eq!(choose_opt_level(Some(1), &manifest()), (OptLevel::O1, false));
    assert_eq!(choose_opt_level(None, &manifest()), (OptLevel::O2, false));
}

#[test]
fn paths_of_a_build() {
    let root = "/p".to_string();
    assert_eq!(place(&root, &"src/Main.kz".to_string(), false), "/p/src/Main.kz");
    assert_eq!(place(&root, &"/abs/M.kz".to_string(), true), "/abs/M.kz");
    let (file, dir) = output_path(None, &root, &manifest(), false);
    assert_eq!((file.as_str(), dir.as_deref()), ("/p/out/demo.kzo", Some("/p/out")));
    let (file, dir) = output_path(Some("x.kzo".to_string()), &root, &manifest(), false);
    assert_eq!((file.as_str(), dir), ("x.kzo", None));
    assert!(is_artifact(&"/p/out/demo.kzo".to_string()));
    assert!(!is_artifact(&"demo.kz".to_string()));
    assert!(!is_artifact(&"kzo".to_string()));
}

#[test]
fn nearest_manifest_wins() {
    assert_eq!(find_project_root(&vec![false, true, true]), Some(1));
    assert_eq!(find_project_root(&vec![false; 3]), None);
    let mut deep = vec![false; 64];
    deep.push(true);
    assert_eq!(find_project_root(&deep), None);
    deep[63] = true;
    assert_eq!(find_project_root(&deep), Some(63));
}

#[test]
fn files_of_a_new_project() {
    let p = new_project(&"".to_string(), None);
    assert_eq!((p.name.as_str(), p.manifest_path.as_str(), p.src_dir.as_str()), ("app", MANIFEST_NAME, "src"));
    let p = new_project(&"work/demo".to_string(), Some("demo".to_string()));
    assert_eq!(p.manifest_path, "work/demo/kuzo.toml");
    assert_eq!(p.main_path, "work/demo/src/Main.kz");
    assert_eq!(
        p.manifest_text,
        "[package]\nname = \"demo\"\nentry = \"src/Main.kz\"\n\n[build]\noutput_dir = \"out\"\nopt_level = 2\n"
    );
    assert_eq!(p.main_text, "fun main(): void {\n    println(\"Hello, Kuzo!\")\n}\n");
}

#[test]
fn findings_that_fail() {
    let deny = Some("warning".to_string());
    assert!(lint_fails(&vec![Severity::Advice, Severity::Error], &None));
    assert!(!lint_fails(&vec![Severity::Warning], &None));
    assert!(lint_fails(&vec![Severity::Warning], &deny));
    assert!(!lint_fails(&vec![Severity::Warning], &Some("error".to_string())));
    assert!(!lint_fails(&vec![Severity::Advice], &deny));
}
