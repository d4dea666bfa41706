use nix_zed_extensions::files::{is_json_file, is_stale_extension_file, is_stale_grammar_file, json_file_name};
use nix_zed_extensions::output::{Extension, ExtensionKind, Grammar, Source};

fn source() -> Source {
    Source {
        url: String::new(),
        rev: String::new(),
        date: String::new(),
        path: String::new(),
        sha256: String::new(),
        hash: String::new(),
        fetch_lfs: false,
        fetch_submodules: false,
        deep_clone: false,
        leave_dot_git: false,
    }
}

fn extension(name: &str) -> Extension {
    Extension { name: name.to_owned(), version: "1".to_owned(), src: source(), root: None, grammars: vec![], kind: ExtensionKind::Plain }
}

fn grammar(id: &str) -> Grammar {
    Grammar { id: id.to_owned(), name: id.to_owned(), version: "1".to_owned(), src: source(), root: None }
}

#[test]
fn json_extension_as_path_reads_it() {
    for name in ["a.json", ".json", "..json", "a.jsonx", "json", "a.b.json"] {
        let want = std::path::Path::new(name).extension().is_some_and(|e| e == "json");
        assert_eq!(is_json_file(name), want, "{}", name);
    }
    assert_eq!(json_file_name("nix"), "nix.json");
}

#[test]
fn extension_files_of_unknown_names_are_stale() {
    let exts = vec![extension("nix")];
    assert!(!is_stale_extension_file(&exts, "nix.json"));
    assert!(!is_stale_extension_file(&exts, "nix.lock"));
    assert!(is_stale_extension_file(&exts, "old.json"));
    assert!(is_stale_extension_file(&exts, "old.lock"));
    assert!(!is_stale_extension_file(&exts, "README.md"));
}

#[test]
fn grammar_files_of_unknown_ids_are_stale() {
    let gs = vec![grammar("nix_nix"), grammar("x.json")];
    assert!(!is_stale_grammar_file(&gs, "nix_nix.json"));
    assert!(is_stale_grammar_file(&gs, "gone.json"));
    // An id ending in ".json" loses it when read back from its file name.
    assert!(is_stale_grammar_file(&gs, &json_file_name("x.json")));
}
