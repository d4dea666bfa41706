use nix_zed_extensions::git::{full_hash, pin_rev, prefetch_args};

const HASH: &str = "0123456789abcdefABCDEF0123456789abcdef01";

#[test]
fn full_hashes_and_refs_are_kept() {
    assert!(full_hash(HASH));
    assert_eq!(pin_rev(HASH), HASH);
    assert_eq!(pin_rev("refs/tags/v1.0.0"), "refs/tags/v1.0.0");
}

#[test]
fn other_revisions_become_branches() {
    assert_eq!(pin_rev("main"), "refs/heads/main");
    // 40 characters, but not all hexadecimal.
    let almost = "g123456789abcdef0123456789abcdef01234567";
    assert!(!full_hash(almost));
    assert_eq!(pin_rev(almost), format!("refs/heads/{almost}"));
    // Hexadecimal, but too short.
    assert_eq!(pin_rev("abc123"), "refs/heads/abc123");
}

#[test]
fn pinning_twice_changes_nothing() {
    for rev in [HASH, "main", "refs/x", "", "abc123"] {
        let once = pin_rev(rev);
        assert_eq!(pin_rev(&once), once);
    }
}

#[test]
fn prefetch_arguments() {
    assert_eq!(
        prefetch_args("https://github.com/a/b", "main", false),
        vec!["--url", "https://github.com/a/b", "--rev", "refs/heads/main", "--quiet"]
    );
    assert_eq!(
        prefetch_args("u", HASH, true),
        vec!["--url", "u", "--rev", HASH, "--fetch-submodules", "--quiet"]
    );
}
