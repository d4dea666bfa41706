use nix_zed_extensions::registry::{
    every_line_holds, lookup, merge_registry, parse_submodule_status, parse_submodule_urls,
    Registry, RegistryEntry,
};

#[test]
fn submodule_status_lines_give_path_and_revision() {
    let out = "-0123abc extensions/nix\n-4567def extensions/rust\n";
    assert!(every_line_holds(out, ' '));
    let table = parse_submodule_status(out);
    assert_eq!(
        table,
        vec![
            ("extensions/nix".to_owned(), "0123abc".to_owned()),
            ("extensions/rust".to_owned(), "4567def".to_owned()),
        ]
    );
}

#[test]
fn status_line_without_space_is_detected() {
    assert!(!every_line_holds("-0123abc extensions/nix\nbroken", ' '));
    assert!(every_line_holds("", ' '));
}

#[test]
fn gitmodules_listing_gives_path_and_repository() {
    let out = "submodule.extensions/nix.path=extensions/nix\nsubmodule.extensions/nix.url=https://github.com/zed-extensions/nix.git\n";
    assert!(every_line_holds(out, '='));
    let table = parse_submodule_urls(out);
    assert_eq!(table[1], ("extensions/nix".to_owned(), "https://github.com/zed-extensions/nix".to_owned()));
    assert_eq!(table[0], ("extensions/nix.path".to_owned(), "extensions/nix".to_owned()));
}

#[test]
fn lookup_takes_the_last_pair() {
    let table = vec![
        ("k".to_owned(), "first".to_owned()),
        ("other".to_owned(), "x".to_owned()),
        ("k".to_owned(), "second".to_owned()),
    ];
    assert_eq!(lookup(&table, "k"), Some("second".to_owned()));
    assert_eq!(lookup(&table, "missing"), None);
}

#[test]
fn registry_entries_without_submodule_data_are_skipped() {
    let registry = vec![
        ("a".to_owned(), RegistryEntry { submodule: "extensions/a".to_owned(), version: "1.0.0".to_owned(), path: Some("sub".to_owned()) }),
        ("b".to_owned(), RegistryEntry { submodule: "extensions/b".to_owned(), version: "2.0.0".to_owned(), path: None }),
        ("c".to_owned(), RegistryEntry { submodule: "extensions/c".to_owned(), version: "3.0.0".to_owned(), path: None }),
    ];
    let repositories = vec![("extensions/a".to_owned(), "https://a".to_owned()), ("extensions/c".to_owned(), "https://c".to_owned())];
    let revisions = vec![("extensions/a".to_owned(), "ra".to_owned()), ("extensions/b".to_owned(), "rb".to_owned())];
    let merged = merge_registry(&registry, &repositories, &revisions);
    assert_eq!(merged.len(), 1);
    assert_eq!(merged[0].name, "a");
    assert_eq!(merged[0].version, "1.0.0");
    assert_eq!(merged[0].repository, "https://a");
    assert_eq!(merged[0].path, Some("sub".to_owned()));
    assert_eq!(merged[0].rev, "ra");
    // Every merged extension is named after a registry entry.
    assert!(merged.iter().all(|m| registry.iter().any(|(name, _)| name == &m.name)));
}

#[test]
fn merge_keeps_registry_order() {
    let names = ["alpha", "beta", "gamma"];
    let registry: Vec<(String, RegistryEntry)> = names
        .iter()
        .map(|n| (n.to_string(), RegistryEntry { submodule: format!("extensions/{n}"), version: "1".to_owned(), path: None }))
        .collect();
    let table: Vec<(String, String)> = names.iter().map(|n| (format!("extensions/{n}"), "x".to_owned())).collect();
    let merged = merge_registry(&registry, &table, &table);
    let got: Vec<&str> = merged.iter().map(|m| m.name.as_str()).collect();
    assert_eq!(got, names.to_vec());
}

#[test]
fn registry_keeps_names_once_in_order() {
    let e = || RegistryEntry { submodule: "s".to_owned(), version: "1".to_owned(), path: None };
    let ok = Registry::from_entries(vec![("a".to_owned(), e()), ("b".to_owned(), e())]).unwrap();
    assert_eq!(ok.entries().len(), 2);
    assert!(Registry::from_entries(vec![("b".to_owned(), e()), ("a".to_owned(), e())]).is_none());
    assert!(Registry::from_entries(vec![("a".to_owned(), e()), ("a".to_owned(), e())]).is_none());
    assert!(Registry::from_entries(vec![]).is_some());
}
