use nix_zed_extensions::grammar::{
    assemble_extension, collect_grammars, grammar_id, grammar_root, make_grammar, plain_layout,
};
use nix_zed_extensions::output::{ExtensionKind, Source};

fn source() -> Source {
    Source {
        url: "u".to_owned(),
        rev: "r".to_owned(),
        date: "d".to_owned(),
        path: "p".to_owned(),
        sha256: "s".to_owned(),
        hash: "h".to_owned(),
        fetch_lfs: false,
        fetch_submodules: false,
        deep_clone: true,
        leave_dot_git: false,
    }
}

#[test]
fn grammar_ids_join_extension_and_name() {
    assert_eq!(grammar_id("nix", "nix"), "nix_nix");
    assert_eq!(grammar_id("html", "html_inline"), "html_html_inline");
}

#[test]
fn grammar_roots_lose_leading_dot_slashes() {
    assert_eq!(grammar_root(&Some("././grammars/x".to_owned())), Some("grammars/x".to_owned()));
    assert_eq!(grammar_root(&Some("grammars".to_owned())), Some("grammars".to_owned()));
    assert_eq!(grammar_root(&None), None);
    let once = grammar_root(&Some("./a".to_owned()));
    assert_eq!(grammar_root(&once), once);
}

#[test]
fn grammar_record_fields() {
    let g = make_grammar("ext", "lang".to_owned(), "abc".to_owned(), source(), &Some("./src".to_owned()));
    assert_eq!(g.id, "ext_lang");
    assert_eq!(g.name, "lang");
    assert_eq!(g.version, "abc");
    assert_eq!(g.src, source());
    assert_eq!(g.root, Some("src".to_owned()));
}

#[test]
fn processed_grammars_are_ordered_by_id() {
    let gs = vec![
        make_grammar("e", "b".to_owned(), "1".to_owned(), source(), &None),
        make_grammar("e", "a".to_owned(), "1".to_owned(), source(), &None),
    ];
    let p = collect_grammars(gs);
    assert_eq!(p.ids, vec!["e_a", "e_b"]);
    assert_eq!(p.grammars[0].id, "e_a");
    let (ext, grammars) = assemble_extension("e".to_owned(), "1.0".to_owned(), source(), None, ExtensionKind::Plain, p);
    assert_eq!(ext.grammars, vec!["e_a", "e_b"]);
    assert_eq!(grammars.len(), 2);
    assert_eq!(ext.kind, ExtensionKind::Plain);
}

#[test]
fn plain_layout_keeps_registry_path() {
    assert_eq!(plain_layout(&Some("sub".to_owned())), (ExtensionKind::Plain, Some("sub".to_owned())));
    assert_eq!(plain_layout(&None), (ExtensionKind::Plain, None));
}
