//! Arguments of the git and `nix-prefetch-git` invocations of a sync.

use vstd::prelude::*;

use crate::text::{chars_of, concat_str, has_prefix, starts_with};

verus! {

/// An ASCII hexadecimal digit.
pub open spec fn is_hex_digit(c: char) -> bool {
    ('0' <= c && c <= '9') || ('a' <= c && c <= 'f') || ('A' <= c && c <= 'F')
}

/// A full commit hash: 40 hexadecimal digits.
pub open spec fn is_full_hash(rev: Seq<char>) -> bool {
    rev.len() == 40 && forall|i: int| 0 <= i < rev.len() ==> is_hex_digit(#[trigger] rev[i])
}

/// The revision handed to `nix-prefetch-git`: a full commit hash or a
/// `refs/` path as it is, anything else as a branch under `refs/heads/`.
pub open spec fn pinned_rev(rev: Seq<char>) -> Seq<char> {
    if is_full_hash(rev) || starts_with(rev, "refs/"@) {
        rev
    } else {
        "refs/heads/"@ + rev
    }
}

/// Whether `rev` is a full commit hash.
pub fn full_hash(rev: &str) -> (r: bool)
    ensures
        r == is_full_hash(rev@),
{
    let cs = chars_of(rev);
    if cs.len() != 40 {
        return false;
    }
    let mut i: usize = 0;
    while i < cs.len()
        invariant
            cs@ == rev@,
            i <= cs@.len(),
            forall|k: int| 0 <= k < i ==> is_hex_digit(#[trigger] cs@[k]),
        decreases cs@.len() - i,
    {
        let c = cs[i];
        if !(('0' <= c && c <= '9') || ('a' <= c && c <= 'f') || ('A' <= c && c <= 'F')) {
            return false;
        }
        i = i + 1;
    }
    true
}

/// The revision handed to `nix-prefetch-git`.
pub fn pin_rev(rev: &str) -> (r: String)
    ensures
        r@ == pinned_rev(rev@),
{
    if full_hash(rev) || has_prefix(rev, "refs/") {
        rev.to_owned()
    } else {
        concat_str("refs/heads/", rev)
    }
}

/// The characters of each argument.
pub open spec fn arg_views(v: Seq<String>) -> Seq<Seq<char>> {
    v.map_values(|x: String| x@)
}

/// The arguments of `nix-prefetch-git` for `repo` at `rev`.
pub open spec fn prefetch_args_of(repo: Seq<char>, rev: Seq<char>, fetch_submodules: bool) -> Seq<
    Seq<char>,
> {
    let head = seq!["--url"@, repo, "--rev"@, pinned_rev(rev)];
    if fetch_submodules {
        head + seq!["--fetch-submodules"@, "--quiet"@]
    } else {
        head + seq!["--quiet"@]
    }
}

/// The arguments of `nix-prefetch-git` for `repo` at `rev`.
pub fn prefetch_args(repo: &str, rev: &str, fetch_submodules: bool) -> (r: Vec<String>)
    ensures
        arg_views(r@) == prefetch_args_of(repo@, rev@, fetch_submodules),
{
    let mut args: Vec<String> = Vec::new();
    args.push("--url".to_owned());
    args.push(repo.to_owned());
    args.push("--rev".to_owned());
    args.push(pin_rev(rev));
    if fetch_submodules {
        args.push("--fetch-submodules".to_owned());
    }
    args.push("--quiet".to_owned());
    assert(arg_views(args@) =~= prefetch_args_of(repo@, rev@, fetch_submodules));
    args
}

} // verus!

verus! {

/// Pinning a pinned revision changes nothing.
pub proof fn lemma_pinned_rev_idempotent(rev: Seq<char>)
    ensures
        pinned_rev(pinned_rev(rev)) == pinned_rev(rev),
{
    if !(is_full_hash(rev) || starts_with(rev, "refs/"@)) {
        reveal_strlit("refs/heads/");
        reveal_strlit("refs/");
        let r = "refs/heads/"@ + rev;
        assert(r.take(5) =~= "refs/"@);
    }
}


/// The revision handed on is always a full commit hash or a `refs/` path;
/// it ends with the revision asked for, which is kept as it is where it is
/// already a full hash or a `refs/` path and otherwise only gets the
/// prefix `refs/heads/`.
pub proof fn lemma_pinned_rev_law(rev: Seq<char>)
    ensures
        is_full_hash(pinned_rev(rev)) || starts_with(pinned_rev(rev), "refs/"@),
        crate::text::ends_with(pinned_rev(rev), rev),
        pinned_rev(rev) == rev || pinned_rev(rev) == "refs/heads/"@ + rev,
        is_full_hash(rev) ==> pinned_rev(rev) == rev,
        starts_with(rev, "refs/"@) ==> pinned_rev(rev) == rev,
        !is_full_hash(rev) && !starts_with(rev, "refs/"@) ==> pinned_rev(rev).len() == rev.len()
            + 11,
{
    reveal_strlit("refs/heads/");
    reveal_strlit("refs/");
    let r = pinned_rev(rev);
    assert(r.skip(r.len() - rev.len()) =~= rev);
    if !(is_full_hash(rev) || starts_with(rev, "refs/"@)) {
        assert(r.take(5) =~= "refs/"@);
    }
}


/// The arguments name the repository after `--url` and the pinned revision
/// after `--rev`, ask for the submodules where told to (one argument more),
/// and end with `--quiet`.
pub proof fn lemma_prefetch_args_law(repo: Seq<char>, rev: Seq<char>, fetch_submodules: bool)
    ensures
        ({
            let a = prefetch_args_of(repo, rev, fetch_submodules);
            &&& a.len() == if fetch_submodules { 6int } else { 5int }
            &&& a[0] == "--url"@ && a[1] == repo
            &&& a[2] == "--rev"@ && a[3] == pinned_rev(rev)
            &&& a.last() == "--quiet"@
            &&& fetch_submodules ==> a[4] == "--fetch-submodules"@
        }),
{
    let a = prefetch_args_of(repo, rev, fetch_submodules);
    let head = seq!["--url"@, repo, "--rev"@, pinned_rev(rev)];
    if fetch_submodules {
        assert(a =~= head + seq!["--fetch-submodules"@, "--quiet"@]);
    } else {
        assert(a =~= head + seq!["--quiet"@]);
    }
}

} // verus!
