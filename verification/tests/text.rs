use nix_zed_extensions::text::{
    chars_of, concat_str, contains_str, has_prefix, has_suffix, is_whitespace, lines_of,
    split_once_of, str_eq, str_le, strip_suffix_of, substring, trim_end_matches_of, trim_of,
    trim_start_matches_of,
};

#[test]
fn trim_drops_unicode_white_space_at_both_ends() {
    assert_eq!(trim_of("  \t\nabc def\r\n "), "abc def");
    assert_eq!(trim_of("\u{3000}x\u{a0}"), "x");
    assert_eq!(trim_of("   "), "");
    assert_eq!(trim_of(""), "");
}

#[test]
fn whitespace_matches_std() {
    for c in ['\t', '\n', '\u{b}', '\u{c}', '\r', ' ', '\u{85}', '\u{a0}', '\u{1680}', '\u{2000}', '\u{200a}', '\u{2028}', '\u{2029}', '\u{202f}', '\u{205f}', '\u{3000}', 'a', '-', '\u{200b}', '\u{feff}'] {
        assert_eq!(is_whitespace(c), c.is_whitespace(), "{:?}", c);
    }
}

#[test]
fn lines_split_like_std() {
    for s in ["a\nb", "a\r\nb\r\n", "a\n\nb\n", "", "\n", "x\r", "one"] {
        let want: Vec<String> = s.lines().map(|l| l.to_owned()).collect();
        assert_eq!(lines_of(s), want, "{:?}", s);
    }
}

#[test]
fn split_once_at_first_separator() {
    assert_eq!(split_once_of("a=b=c", '='), Some(("a".to_owned(), "b=c".to_owned())));
    assert_eq!(split_once_of("=x", '='), Some(("".to_owned(), "x".to_owned())));
    assert_eq!(split_once_of("abc", '='), None);
}

#[test]
fn repeated_prefix_and_suffix_removal() {
    assert_eq!(trim_start_matches_of("---abc", "-"), "abc");
    assert_eq!(trim_start_matches_of("submodule.submodule.x", "submodule."), "x");
    assert_eq!(trim_end_matches_of("repo.git.git", ".git"), "repo");
    assert_eq!(trim_end_matches_of("aaa", "aa"), "a");
    assert_eq!(trim_start_matches_of("abc", ""), "abc");
}

#[test]
fn string_order_matches_std() {
    let cases = [("a", "b"), ("b", "a"), ("", "a"), ("a", ""), ("abc", "abd"), ("ab", "abc"), ("0.10.0", "0.9.0"), ("é", "z"), ("same", "same")];
    for (a, b) in cases {
        assert_eq!(str_le(a, b), a <= b, "{:?} {:?}", a, b);
    }
}

#[test]
fn small_helpers() {
    assert_eq!(chars_of("hé"), vec!['h', 'é']);
    assert!(str_eq("abc", "abc"));
    assert!(!str_eq("abc", "abd"));
    assert_eq!(concat_str("foo", ".json"), "foo.json");
    assert_eq!(substring("héllo", 1, 3), "él");
    assert!(has_prefix("refs/heads/main", "refs/"));
    assert!(!has_prefix("ref", "refs/"));
    assert!(has_suffix("x.json", ".json"));
    assert_eq!(strip_suffix_of("x.lock", ".lock"), Some("x".to_owned()));
    assert_eq!(strip_suffix_of("x.lock", ".json"), None);
    let list = vec!["a".to_owned(), "b".to_owned()];
    assert!(contains_str(&list, "b"));
    assert!(!contains_str(&list, "c"));
}
