//! Names of the catalogue's output files, and which files in the output
//! directories are stale.

use vstd::prelude::*;

use crate::catalog::named;
use crate::output::{Extension, Grammar};
use crate::text::{
    concat_str, ends_with, has_suffix, strip_suffix, strip_suffix_of, trim_end_matches,
    trim_end_matches_of,
};

verus! {

/// The file that holds the record `key`: `<key>.json`.
pub open spec fn json_name(key: Seq<char>) -> Seq<char> {
    key + ".json"@
}

/// The file that holds the record `key`.
pub fn json_file_name(key: &str) -> (r: String)
    ensures
        r@ == json_name(key@),
{
    concat_str(key, ".json")
}

/// The file name has the extension `json` (as `Path::extension` reads
/// it): it ends in `.json` with something before the dot.
pub open spec fn has_json_ext(file_name: Seq<char>) -> bool {
    ends_with(file_name, ".json"@) && file_name.len() > ".json"@.len()
}

/// Whether the file name has the extension `json`.
pub fn is_json_file(file_name: &str) -> (r: bool)
    ensures
        r == has_json_ext(file_name@),
{
    has_suffix(file_name, ".json") && file_name.unicode_len() > ".json".unicode_len()
}

/// A file of the extensions directory is stale: it is `<name>.json` or
/// `<name>.lock` for a name that no extension of the catalogue has.
pub open spec fn stale_extension_file(exts: Seq<Extension>, file_name: Seq<char>) -> bool {
    ||| (strip_suffix(file_name, ".json"@) matches Some(n) && !named(exts, n))
    ||| (strip_suffix(file_name, ".lock"@) matches Some(n) && !named(exts, n))
}

/// Whether a file of the extensions directory is stale.
pub fn is_stale_extension_file(exts: &Vec<Extension>, file_name: &str) -> (r: bool)
    ensures
        r == stale_extension_file(exts@, file_name@),
{
    let json = match strip_suffix_of(file_name, ".json") {
        Some(n) => crate::catalog::find_named(exts, n.as_str()).is_none(),
        None => false,
    };
    let lock = match strip_suffix_of(file_name, ".lock") {
        Some(n) => crate::catalog::find_named(exts, n.as_str()).is_none(),
        None => false,
    };
    json || lock
}

/// A file of the grammars directory is stale: without its trailing
/// `.json` suffixes, it is no grammar's id.
pub open spec fn stale_grammar_file(grammars: Seq<Grammar>, file_name: Seq<char>) -> bool {
    !exists|i: int|
        0 <= i < grammars.len() && #[trigger] grammars[i].id@ == trim_end_matches(
            file_name,
            ".json"@,
        )
}

/// Whether a file of the grammars directory is stale.
pub fn is_stale_grammar_file(grammars: &Vec<Grammar>, file_name: &str) -> (r: bool)
    ensures
        r == stale_grammar_file(grammars@, file_name@),
{
    let id = trim_end_matches_of(file_name, ".json");
    let mut i: usize = 0;
    while i < grammars.len()
        invariant
            i <= grammars@.len(),
            id@ == trim_end_matches(file_name@, ".json"@),
            forall|k: int| 0 <= k < i ==> #[trigger] grammars@[k].id@ != id@,
        decreases grammars@.len() - i,
    {
        if crate::text::str_eq(grammars[i].id.as_str(), id.as_str()) {
            return false;
        }
        i = i + 1;
    }
    true
}

} // verus!

verus! {

proof fn lemma_with_suffix(key: Seq<char>, suffix: Seq<char>, other: Seq<char>)
    requires
        suffix.len() == other.len(),
        suffix.len() > 0,
        suffix.last() != other.last(),
    ensures
        strip_suffix(key + suffix, suffix) == Some(key),
        strip_suffix(key + suffix, other) is None,
{
    let s = key + suffix;
    assert(s.skip(s.len() - suffix.len()) =~= suffix);
    assert(s.take(s.len() - suffix.len()) =~= key);
    if ends_with(s, other) {
        assert(s.last() == other.last());
    }
}

/// The files written for the extensions of the catalogue are never taken
/// for stale: neither `<name>.json` nor `<name>.lock` of any of them.
pub proof fn lemma_written_extension_files_kept(exts: Seq<Extension>, i: int)
    requires
        0 <= i < exts.len(),
    ensures
        !stale_extension_file(exts, json_name(exts[i].name@)),
        !stale_extension_file(exts, exts[i].name@ + ".lock"@),
{
    reveal_strlit(".json");
    reveal_strlit(".lock");
    let name = exts[i].name@;
    lemma_with_suffix(name, ".json"@, ".lock"@);
    lemma_with_suffix(name, ".lock"@, ".json"@);
    assert(named(exts, name));
}

/// The file written for a grammar of the catalogue is not taken for stale,
/// where the grammar's id does not itself end in `.json`. (An id such as
/// `x.json` is written to `x.json.json`, which loses both suffixes when
/// read back and is then removed.)
pub proof fn lemma_written_grammar_file_kept(grammars: Seq<Grammar>, i: int)
    requires
        0 <= i < grammars.len(),
        !ends_with(grammars[i].id@, ".json"@),
    ensures
        !stale_grammar_file(grammars, json_name(grammars[i].id@)),
{
    reveal_strlit(".json");
    let id = grammars[i].id@;
    let s = json_name(id);
    assert(s.skip(s.len() - 5) =~= ".json"@);
    assert(s.take(s.len() - 5) =~= id);
    assert(trim_end_matches(s, ".json"@) == trim_end_matches(id, ".json"@));
    assert(trim_end_matches(id, ".json"@) == id);
    assert(grammars[i].id@ == trim_end_matches(s, ".json"@));
}


/// The file of a record is its key with `.json` appended: stripping
/// `.json` gives the key back, and it has the extension `json` exactly
/// when the key is not empty.
pub proof fn lemma_json_name_law(key: Seq<char>)
    ensures
        strip_suffix(json_name(key), ".json"@) == Some(key),
        has_json_ext(json_name(key)) <==> key.len() > 0,
{
    reveal_strlit(".json");
    let s = json_name(key);
    assert(s.skip(s.len() - 5) =~= ".json"@);
    assert(s.take(s.len() - 5) =~= key);
}


/// Only `<name>.json` and `<name>.lock` files of the extensions directory
/// can be stale, and such a file is stale exactly when no extension of the
/// catalogue has that name.
pub proof fn lemma_stale_extension_file_law(exts: Seq<Extension>, name: Seq<char>, file_name: Seq<char>)
    ensures
        !ends_with(file_name, ".json"@) && !ends_with(file_name, ".lock"@) ==> !stale_extension_file(
            exts,
            file_name,
        ),
        stale_extension_file(exts, name + ".json"@) <==> !named(exts, name),
        stale_extension_file(exts, name + ".lock"@) <==> !named(exts, name),
{
    reveal_strlit(".json");
    reveal_strlit(".lock");
    lemma_with_suffix(name, ".json"@, ".lock"@);
    lemma_with_suffix(name, ".lock"@, ".json"@);
}

} // verus!
