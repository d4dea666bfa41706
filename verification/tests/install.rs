use std::path::{Component, Path};
use nix_zed_extensions::install::{
    add_all_missing, add_missing, components_of, join_path, parse_grammar_argument, populate_paths,
    ManifestPaths, PopulateScan,
};

#[test]
fn grammar_argument_is_split_at_first_colon() {
    let (name, dir) = parse_grammar_argument("nix:/nix/store/abc-nix").unwrap();
    assert_eq!(name, "nix");
    assert_eq!(dir, "/nix/store/abc-nix/share/zed/grammars");
    let (name, dir) = parse_grammar_argument("a:b:c").unwrap();
    assert_eq!(name, "a");
    assert_eq!(dir, "b:c/share/zed/grammars");
}

#[test]
fn grammar_argument_without_colon_is_refused() {
    let err = parse_grammar_argument("nix").unwrap_err();
    assert_eq!(err.argument, "nix");
    assert_eq!(err.message(), "Invalid grammar argument: 'nix' (expected name:path)");
}

#[test]
fn join_matches_std_path() {
    for (base, rel) in [("a", "b/c"), ("a/", "b"), ("", "b"), ("/x", "y")] {
        let want = Path::new(base).join(rel);
        assert_eq!(join_path(base, rel), want.to_str().unwrap());
    }
}

#[test]
fn add_missing_keeps_entries_once() {
    let mut list = vec!["languages/nix".to_owned()];
    add_missing(&mut list, "languages/rust".to_owned());
    add_missing(&mut list, "languages/nix".to_owned());
    assert_eq!(list, vec!["languages/nix", "languages/rust"]);
}

#[test]
fn add_missing_compares_paths_by_components() {
    let mut list = vec!["languages/foo/".to_owned(), "themes//a.json".to_owned()];
    add_missing(&mut list, "languages/foo".to_owned());
    add_missing(&mut list, "themes/./a.json".to_owned());
    assert_eq!(list, vec!["languages/foo/", "themes//a.json"]);
    // A leading "./" is a component of its own.
    add_missing(&mut list, "./languages/foo".to_owned());
    assert_eq!(list.len(), 3);
}

#[test]
fn components_match_std_path() {
    for p in ["", ".", "./", "/", "a", "a/b/", "a//b", "a/./b", "./a", "/./a", "../a/..", ".a/b", "//x", "a/.", "..."] {
        let want: Vec<String> = Path::new(p)
            .components()
            .map(|c| match c {
                Component::RootDir => "/".to_owned(),
                Component::CurDir => ".".to_owned(),
                Component::ParentDir => "..".to_owned(),
                Component::Normal(s) => s.to_string_lossy().into_owned(),
                Component::Prefix(_) => unreachable!(),
            })
            .collect();
        assert_eq!(components_of(p), want, "{:?}", p);
    }
}

#[test]
fn split_argument_joins_back() {
    let arg = "lang:/store/x:y";
    let (name, _) = parse_grammar_argument(arg).unwrap();
    let rest = nix_zed_extensions::text::split_once_of(arg, ':').unwrap().1;
    assert_eq!(format!("{}:{}", name, rest), arg);
    assert!(!name.contains(':'));
}

#[test]
fn add_all_missing_adds_in_order_once() {
    let mut list = vec!["themes/a.json".to_owned()];
    let found = vec!["themes/b.json".to_owned(), "themes/a.json".to_owned(), "themes//b.json".to_owned()];
    add_all_missing(&mut list, &found);
    assert_eq!(list, vec!["themes/a.json", "themes/b.json"]);
}

#[test]
fn populate_completes_paths_and_is_idempotent() {
    let mut paths = ManifestPaths {
        languages: vec!["languages/nix".to_owned()],
        themes: vec![],
        icon_themes: vec![],
        snippets: None,
    };
    let scan = PopulateScan {
        languages: vec!["languages/nix".to_owned(), "languages/rust".to_owned()],
        themes: vec!["themes/dark.json".to_owned()],
        icon_themes: vec!["icon_themes/icons.json".to_owned()],
        snippets_file: true,
    };
    populate_paths(&mut paths, &scan);
    assert_eq!(paths.languages, vec!["languages/nix", "languages/rust"]);
    assert_eq!(paths.themes, vec!["themes/dark.json"]);
    assert_eq!(paths.icon_themes, vec!["icon_themes/icons.json"]);
    assert_eq!(paths.snippets, Some(vec!["./snippets.json".to_owned()]));
    let once = paths.clone();
    populate_paths(&mut paths, &scan);
    assert_eq!(paths, once);
}

#[test]
fn named_snippets_are_kept() {
    let mut paths = ManifestPaths { languages: vec![], themes: vec![], icon_themes: vec![], snippets: Some(vec!["my.json".to_owned()]) };
    let scan = PopulateScan { languages: vec![], themes: vec![], icon_themes: vec![], snippets_file: true };
    populate_paths(&mut paths, &scan);
    assert_eq!(paths.snippets, Some(vec!["my.json".to_owned()]));
    let mut none = ManifestPaths { languages: vec![], themes: vec![], icon_themes: vec![], snippets: None };
    let no_file = PopulateScan { languages: vec![], themes: vec![], icon_themes: vec![], snippets_file: false };
    populate_paths(&mut none, &no_file);
    assert_eq!(none.snippets, None);
}
