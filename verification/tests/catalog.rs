use nix_zed_extensions::catalog::{
    apply_all, apply_processed, find_named, in_registry, is_outdated, remove_unmaintained, select_outdated,
    sort_catalog,
};
use nix_zed_extensions::output::{Extension, ExtensionKind, Grammar, NixExtensions, Source};
use nix_zed_extensions::registry::{RegistryEntry, RegistryExtension};

fn source(rev: &str) -> Source {
    Source {
        url: "https://example.org/repo".to_owned(),
        rev: rev.to_owned(),
        date: "2024-01-01T00:00:00+00:00".to_owned(),
        path: "/nix/store/x".to_owned(),
        sha256: "0000".to_owned(),
        hash: "sha256-AAAA".to_owned(),
        fetch_lfs: false,
        fetch_submodules: false,
        deep_clone: false,
        leave_dot_git: false,
    }
}

fn extension(name: &str, version: &str, grammars: &[&str]) -> Extension {
    Extension {
        name: name.to_owned(),
        version: version.to_owned(),
        src: source("r"),
        root: None,
        grammars: grammars.iter().map(|g| g.to_string()).collect(),
        kind: ExtensionKind::Plain,
    }
}

fn grammar(id: &str) -> Grammar {
    Grammar {
        id: id.to_owned(),
        name: id.to_owned(),
        version: "r".to_owned(),
        src: source("r"),
        root: None,
    }
}

fn entry(submodule: &str) -> RegistryEntry {
    RegistryEntry { submodule: submodule.to_owned(), version: "1.0.0".to_owned(), path: None }
}

fn candidate(name: &str, version: &str) -> RegistryExtension {
    RegistryExtension {
        name: name.to_owned(),
        version: version.to_owned(),
        repository: "https://example.org/repo".to_owned(),
        path: None,
        rev: "abc".to_owned(),
    }
}

fn names(exts: &[Extension]) -> Vec<&str> {
    exts.iter().map(|e| e.name.as_str()).collect()
}

fn ids(gs: &[Grammar]) -> Vec<&str> {
    gs.iter().map(|g| g.id.as_str()).collect()
}

#[test]
fn finds_first_extension_by_name() {
    let exts = vec![extension("a", "1", &[]), extension("b", "1", &[]), extension("b", "2", &[])];
    assert_eq!(find_named(&exts, "b"), Some(1));
    assert_eq!(find_named(&exts, "c"), None);
}

#[test]
fn unmaintained_extensions_leave_with_their_grammars() {
    let mut output = NixExtensions {
        extensions: vec![extension("kept", "1", &["kept_g"]), extension("gone", "1", &["gone_g", "gone_h"])],
        grammars: vec![grammar("gone_g"), grammar("kept_g"), grammar("gone_h"), grammar("orphan")],
    };
    let registry = vec![("kept".to_owned(), entry("extensions/kept"))];
    assert!(in_registry(&registry, "kept"));
    assert!(!in_registry(&registry, "gone"));
    remove_unmaintained(&mut output, &registry);
    assert_eq!(names(&output.extensions), vec!["kept"]);
    assert_eq!(ids(&output.grammars), vec!["kept_g", "orphan"]);
    // A second pass changes nothing.
    let before = output.clone();
    remove_unmaintained(&mut output, &registry);
    assert_eq!(output, before);
}

#[test]
fn only_first_duplicate_drops_grammars() {
    let mut output = NixExtensions {
        extensions: vec![extension("dup", "1", &["g1"]), extension("dup", "2", &["g2"])],
        grammars: vec![grammar("g1"), grammar("g2")],
    };
    remove_unmaintained(&mut output, &vec![]);
    assert!(output.extensions.is_empty());
    assert_eq!(ids(&output.grammars), vec!["g2"]);
}

#[test]
fn outdated_extensions_are_selected() {
    let existing = vec![extension("same", "1.0.0", &[]), extension("old", "0.9.0", &[]), extension("newer", "2.0.0", &[])];
    let candidates = vec![
        candidate("same", "1.0.0"),
        candidate("old", "1.0.0"),
        candidate("newer", "1.5.0"),
        candidate("fresh", "0.1.0"),
    ];
    assert!(!is_outdated(&existing, &candidates[0]));
    assert!(is_outdated(&existing, &candidates[1]));
    let selected = select_outdated(candidates, &existing);
    let got: Vec<&str> = selected.iter().map(|c| c.name.as_str()).collect();
    assert_eq!(got, vec!["old", "newer", "fresh"]);
}

#[test]
fn changed_versions_are_synced() {
    // 0.9.0 -> 0.10.0 is a change, whatever the string order says.
    let existing = vec![extension("foo", "1.0.0", &[]), extension("bar", "0.9.0", &[])];
    let selected = select_outdated(vec![candidate("foo", "1.0.0"), candidate("bar", "0.10.0")], &existing);
    let got: Vec<&str> = selected.iter().map(|c| c.name.as_str()).collect();
    assert_eq!(got, vec!["bar"]);
}

#[test]
fn processed_extension_replaces_older_one() {
    let mut output = NixExtensions {
        extensions: vec![extension("a", "1", &["a_old"]), extension("b", "1", &["b_g"])],
        grammars: vec![grammar("a_old"), grammar("b_g")],
    };
    apply_processed(&mut output, extension("a", "2", &["a_new"]), vec![grammar("a_new")]);
    assert_eq!(names(&output.extensions), vec!["b", "a"]);
    assert_eq!(output.extensions[1].version, "2");
    assert_eq!(ids(&output.grammars), vec!["b_g", "a_new"]);
    // The processed extension is not selected again.
    assert!(!is_outdated(&output.extensions, &candidate("a", "2")));
}

#[test]
fn new_extension_is_appended() {
    let mut output = NixExtensions::new();
    apply_processed(&mut output, extension("z", "1", &["z_g"]), vec![grammar("z_g")]);
    assert_eq!(names(&output.extensions), vec!["z"]);
    assert_eq!(ids(&output.grammars), vec!["z_g"]);
}

#[test]
fn catalogue_is_sorted_stably() {
    let mut first = grammar("dup");
    first.name = "first".to_owned();
    let mut second = grammar("dup");
    second.name = "second".to_owned();
    let mut output = NixExtensions {
        extensions: vec![extension("c", "1", &[]), extension("a", "1", &[]), extension("b", "1", &[])],
        grammars: vec![grammar("z"), first, grammar("a"), second],
    };
    sort_catalog(&mut output);
    assert_eq!(names(&output.extensions), vec!["a", "b", "c"]);
    assert_eq!(ids(&output.grammars), vec!["a", "dup", "dup", "z"]);
    assert_eq!(output.grammars[1].name, "first");
    assert_eq!(output.grammars[2].name, "second");
    // Sorting again changes nothing.
    let before = output.clone();
    sort_catalog(&mut output);
    assert_eq!(output, before);
}

#[test]
fn default_catalogue_is_empty() {
    let d = NixExtensions::default();
    assert!(d.extensions.is_empty() && d.grammars.is_empty());
}

fn records_complete(output: &NixExtensions) -> bool {
    output
        .extensions
        .iter()
        .all(|e| e.grammars.iter().all(|id| output.grammars.iter().any(|g| &g.id == id)))
}

#[test]
fn every_listed_grammar_keeps_its_record() {
    let mut output = NixExtensions {
        extensions: vec![
            extension("a", "1", &["a_x"]),
            extension("gone", "1", &["gone_x"]),
            extension("b", "1", &["b_x", "b_y"]),
        ],
        grammars: vec![grammar("a_x"), grammar("gone_x"), grammar("b_y"), grammar("b_x")],
    };
    assert!(records_complete(&output));
    let registry = vec![("a".to_owned(), entry("extensions/a")), ("b".to_owned(), entry("extensions/b"))];
    remove_unmaintained(&mut output, &registry);
    assert!(records_complete(&output));
    apply_processed(&mut output, extension("b", "2", &["b_z"]), vec![grammar("b_z")]);
    assert!(records_complete(&output));
    assert_eq!(ids(&output.grammars), vec!["a_x", "b_z"]);
    sort_catalog(&mut output);
    assert!(records_complete(&output));
}

#[test]
fn applying_all_results_folds_them_in_order() {
    let start = NixExtensions {
        extensions: vec![extension("a", "1", &["a_x"]), extension("b", "1", &["b_x"])],
        grammars: vec![grammar("a_x"), grammar("b_x")],
    };
    let results = vec![
        (extension("b", "2", &["b_y"]), vec![grammar("b_y")]),
        (extension("c", "1", &["c_x"]), vec![grammar("c_x")]),
    ];
    let mut one_by_one = start.clone();
    for (e, g) in results.clone() {
        apply_processed(&mut one_by_one, e, g);
    }
    let mut all = start;
    apply_all(&mut all, results);
    assert_eq!(all, one_by_one);
    assert_eq!(names(&all.extensions), vec!["a", "b", "c"]);
    assert_eq!(ids(&all.grammars), vec!["a_x", "b_y", "c_x"]);
    assert!(records_complete(&all));
}
