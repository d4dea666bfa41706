//! The Zed extensions registry: its entries, the submodules that pin them,
//! and the list of extensions to consider for syncing.
//!
//! `git submodule status` and `git config --file .gitmodules --list` are
//! read into tables of (submodule path, value) pairs in output order. A
//! lookup takes the last pair with the key, which is what inserting the
//! pairs in order into a map and reading the map gives.

use vstd::prelude::*;

use crate::text::{
    lemma_lex_le_antisym, lemma_lex_le_trans, lex_le, str_eq, str_le,
    lines, lines_of, opt_view, split_once, split_once_of, trim, trim_end_matches,
    trim_end_matches_of, trim_of, trim_start_matches, trim_start_matches_of,
};

verus! {

broadcast use vstd::seq_lib::group_seq_properties;

/// One entry of the registry's `extensions.toml`: what the sync reads of it.
#[derive(Debug, Clone, PartialEq, Eq)]
pub struct RegistryEntry {
    /// Path of the git submodule holding the extension.
    pub submodule: String,
    pub version: String,
    /// Directory of the extension inside the submodule, if not its root.
    pub path: Option<String>,
}

/// The names of the registry's entries.
pub open spec fn registry_names(registry: Seq<(String, RegistryEntry)>) -> Seq<Seq<char>> {
    registry.map_values(|p: (String, RegistryEntry)| p.0@)
}

/// The names are distinct and in increasing string order, as the keys of
/// a map ordered by key are.
pub open spec fn strictly_ordered(names: Seq<Seq<char>>) -> bool {
    forall|i: int, j: int|
        0 <= i < j < names.len() ==> lex_le(#[trigger] names[i], #[trigger] names[j]) && names[i]
            != names[j]
}

/// The registry's `extensions.toml`: its entries by name, each name once,
/// in name order.
pub struct Registry {
    entries: Vec<(String, RegistryEntry)>,
}

impl Registry {
    /// Each name once, in name order.
    #[verifier::type_invariant]
    spec fn ordered(self) -> bool {
        strictly_ordered(registry_names(self.entries@))
    }

    /// The entries, in name order.
    pub closed spec fn entries_view(&self) -> Seq<(String, RegistryEntry)> {
        self.entries@
    }

    /// The registry with these entries, where their names are distinct and
    /// in order; `None` otherwise.
    pub fn from_entries(entries: Vec<(String, RegistryEntry)>) -> (r: Option<Registry>)
        ensures
            r is Some <==> strictly_ordered(registry_names(entries@)),
            r matches Some(reg) ==> reg.entries_view() == entries@,
    {
        let ghost names = registry_names(entries@);
        let mut i: usize = 1;
        if entries.len() == 0 {
            return Some(Registry { entries });
        }
        while i < entries.len()
            invariant
                1 <= i <= entries@.len(),
                names == registry_names(entries@),
                strictly_ordered(names.take(i as int)),
            decreases entries@.len() - i,
        {
            let a = entries[i - 1].0.as_str();
            let b = entries[i].0.as_str();
            assert(names[i - 1] == a@ && names[i as int] == b@);
            if !str_le(a, b) || str_eq(a, b) {
                assert(!strictly_ordered(names)) by {
                    assert(names[i - 1] == names.take(i + 1)[i - 1]);
                }
                return None;
            }
            proof {
                let t = names.take(i + 1);
                assert forall|p: int, q: int| 0 <= p < q < t.len() implies lex_le(
                    #[trigger] t[p],
                    #[trigger] t[q],
                ) && t[p] != t[q] by {
                    if q < i {
                        assert(t[p] == names.take(i as int)[p]);
                        assert(t[q] == names.take(i as int)[q]);
                    } else if p < i - 1 {
                        assert(t[p] == names.take(i as int)[p]);
                        assert(names[i - 1] == names.take(i as int)[i - 1]);
                        lemma_lex_le_trans(t[p], names[i - 1], t[q]);
                        if t[p] == t[q] {
                            lemma_lex_le_antisym(names[i - 1], t[q]);
                        }
                    }
                }
            }
            i = i + 1;
        }
        assert(names.take(entries@.len() as int) =~= names);
        Some(Registry { entries })
    }

    /// The entries, each name once, in name order.
    pub fn entries(&self) -> (r: &Vec<(String, RegistryEntry)>)
        ensures
            r@ == self.entries_view(),
            strictly_ordered(registry_names(r@)),
    {
        proof {
            use_type_invariant(self);
        }
        &self.entries
    }
}

/// A registry extension with its repository and pinned revision.
#[derive(Debug, Clone, PartialEq, Eq)]
pub struct RegistryExtension {
    pub name: String,
    pub version: String,
    pub repository: String,
    pub path: Option<String>,
    pub rev: String,
}

/// The characters of each field of a `RegistryExtension`.
pub struct RegistryExtensionView {
    pub name: Seq<char>,
    pub version: Seq<char>,
    pub repository: Seq<char>,
    pub path: Option<Seq<char>>,
    pub rev: Seq<char>,
}

impl View for RegistryExtension {
    type V = RegistryExtensionView;

    open spec fn view(&self) -> RegistryExtensionView {
        RegistryExtensionView {
            name: self.name@,
            version: self.version@,
            repository: self.repository@,
            path: opt_view(self.path),
            rev: self.rev@,
        }
    }
}

/// The characters of each pair of a table.
pub open spec fn pair_views(v: Seq<(String, String)>) -> Seq<(Seq<char>, Seq<char>)> {
    v.map_values(|p: (String, String)| (p.0@, p.1@))
}

/// The value of the last pair of `t` with key `k`.
pub open spec fn last_value(t: Seq<(Seq<char>, Seq<char>)>, k: Seq<char>) -> Option<Seq<char>>
    decreases t.len(),
{
    if t.len() == 0 {
        None
    } else if t.last().0 == k {
        Some(t.last().1)
    } else {
        last_value(t.drop_last(), k)
    }
}

/// The value that `t` holds for `key`: that of its last pair with this key.
pub fn lookup(t: &Vec<(String, String)>, key: &str) -> (r: Option<String>)
    ensures
        opt_view(r) == last_value(pair_views(t@), key@),
{
    let mut i = t.len();
    let ghost tv = pair_views(t@);
    assert(tv.take(tv.len() as int) =~= tv);
    while i > 0
        invariant
            i <= t@.len(),
            tv == pair_views(t@),
            last_value(tv, key@) == last_value(tv.take(i as int), key@),
        decreases i,
    {
        assert(tv.take(i as int).drop_last() =~= tv.take(i - 1));
        assert(tv.take(i as int).last() == tv[i - 1]);
        if crate::text::str_eq(t[i - 1].0.as_str(), key) {
            return Some(t[i - 1].1.clone());
        }
        i = i - 1;
    }
    None
}

/// The (submodule path, revision) pair of a `git submodule status` line:
/// the line is split at its first space; the revision is the first part
/// without its leading `-` marks.
pub open spec fn status_pair(line: Seq<char>) -> (Seq<char>, Seq<char>) {
    let parts = split_once(line, ' ').unwrap();
    (parts.1, trim_start_matches(parts.0, seq!['-']))
}

/// Every line of the trimmed text holds `c`.
pub open spec fn all_lines_hold(text: Seq<char>, c: char) -> bool {
    forall|i: int| 0 <= i < lines(trim(text)).len() ==> (#[trigger] split_once(lines(trim(text))[i], c)) is Some
}

/// Whether every line of the trimmed `text` holds `c`.
pub fn every_line_holds(text: &str, c: char) -> (r: bool)
    ensures
        r == all_lines_hold(text@, c),
{
    let t = trim_of(text);
    let ls = lines_of(t.as_str());
    let mut i: usize = 0;
    while i < ls.len()
        invariant
            i <= ls@.len(),
            crate::text::views(ls@) == lines(trim(text@)),
            forall|k: int| 0 <= k < i ==> (#[trigger] split_once(lines(trim(text@))[k], c)) is Some,
        decreases ls@.len() - i,
    {
        assert(crate::text::views(ls@)[i as int] == ls@[i as int]@);
        if split_once_of(ls[i].as_str(), c).is_none() {
            return false;
        }
        i = i + 1;
    }
    true
}

/// Reads the output of `git submodule status` into a table of
/// (submodule path, revision) pairs, one per line of the trimmed output.
pub fn parse_submodule_status(text: &str) -> (r: Vec<(String, String)>)
    requires
        all_lines_hold(text@, ' '),
    ensures
        pair_views(r@) == lines(trim(text@)).map_values(|l: Seq<char>| status_pair(l)),
{
    let t = trim_of(text);
    let ls = lines_of(t.as_str());
    let mut out: Vec<(String, String)> = Vec::new();
    let ghost want = lines(trim(text@)).map_values(|l: Seq<char>| status_pair(l));
    let mut i: usize = 0;
    while i < ls.len()
        invariant
            i <= ls@.len(),
            crate::text::views(ls@) == lines(trim(text@)),
            all_lines_hold(text@, ' '),
            want == lines(trim(text@)).map_values(|l: Seq<char>| status_pair(l)),
            pair_views(out@) =~= want.take(i as int),
        decreases ls@.len() - i,
    {
        let line = ls[i].as_str();
        assert(crate::text::views(ls@)[i as int] == line@);
        assert(split_once(lines(trim(text@))[i as int], ' ') is Some);
        let parts = split_once_of(line, ' ');
        let (first, rest) = parts.unwrap();
        let rev = trim_start_matches_of(first.as_str(), "-");
        proof {
            reveal_strlit("-");
        }
        assert("-"@ =~= seq!['-']);
        out.push((rest, rev));
        assert(want.take(i + 1) =~= want.take(i as int).push(want[i as int]));
        i = i + 1;
    }
    assert(want.take(ls@.len() as int) =~= want);
    out
}

/// The (submodule path, repository) pair of a line of
/// `git config --file .gitmodules --list`: the line is split at its first
/// `=`; the key loses its `submodule.` prefixes and `.url` suffixes, the
/// value its `.git` suffixes.
pub open spec fn url_pair(line: Seq<char>) -> (Seq<char>, Seq<char>) {
    let parts = split_once(line, '=').unwrap();
    (
        trim_end_matches(trim_start_matches(parts.0, "submodule."@), ".url"@),
        trim_end_matches(parts.1, ".git"@),
    )
}

/// Reads the listing of `.gitmodules` into a table of (submodule path,
/// repository) pairs, one per line of the trimmed output.
pub fn parse_submodule_urls(text: &str) -> (r: Vec<(String, String)>)
    requires
        all_lines_hold(text@, '='),
    ensures
        pair_views(r@) == lines(trim(text@)).map_values(|l: Seq<char>| url_pair(l)),
{
    let t = trim_of(text);
    let ls = lines_of(t.as_str());
    let mut out: Vec<(String, String)> = Vec::new();
    let ghost want = lines(trim(text@)).map_values(|l: Seq<char>| url_pair(l));
    let mut i: usize = 0;
    while i < ls.len()
        invariant
            i <= ls@.len(),
            crate::text::views(ls@) == lines(trim(text@)),
            all_lines_hold(text@, '='),
            want == lines(trim(text@)).map_values(|l: Seq<char>| url_pair(l)),
            pair_views(out@) =~= want.take(i as int),
        decreases ls@.len() - i,
    {
        let line = ls[i].as_str();
        assert(crate::text::views(ls@)[i as int] == line@);
        assert(split_once(lines(trim(text@))[i as int], '=') is Some);
        let parts = split_once_of(line, '=');
        let (key, value) = parts.unwrap();
        let key = trim_start_matches_of(key.as_str(), "submodule.");
        let key = trim_end_matches_of(key.as_str(), ".url");
        let value = trim_end_matches_of(value.as_str(), ".git");
        out.push((key, value));
        assert(want.take(i + 1) =~= want.take(i as int).push(want[i as int]));
        i = i + 1;
    }
    assert(want.take(ls@.len() as int) =~= want);
    out
}

} // verus!

verus! {

/// The registry extension that the entry `name` yields, where both tables
/// know its submodule.
pub open spec fn merge_one(
    name: Seq<char>,
    entry: RegistryEntry,
    repositories: Seq<(Seq<char>, Seq<char>)>,
    revisions: Seq<(Seq<char>, Seq<char>)>,
) -> Option<RegistryExtensionView> {
    match (last_value(repositories, entry.submodule@), last_value(revisions, entry.submodule@)) {
        (Some(repository), Some(rev)) => Some(
            RegistryExtensionView {
                name,
                version: entry.version@,
                repository,
                path: opt_view(entry.path),
                rev,
            },
        ),
        _ => None,
    }
}

/// The registry extensions that `registry` yields, in its order.
pub open spec fn merged(
    registry: Seq<(String, RegistryEntry)>,
    repositories: Seq<(Seq<char>, Seq<char>)>,
    revisions: Seq<(Seq<char>, Seq<char>)>,
) -> Seq<RegistryExtensionView> {
    registry.filter_map(
        |p: (String, RegistryEntry)| merge_one(p.0@, p.1, repositories, revisions),
    )
}

/// The characters of an optional string, copied.
fn copy_opt(o: &Option<String>) -> (r: Option<String>)
    ensures
        opt_view(r) == opt_view(*o),
{
    match o {
        Some(s) => Some(s.clone()),
        None => None,
    }
}

/// Joins each registry entry (name and entry, in the registry's order) with
/// the repository and revision of its submodule; entries whose submodule
/// is missing from either table are left out.
pub fn merge_registry(
    registry: &Vec<(String, RegistryEntry)>,
    repositories: &Vec<(String, String)>,
    revisions: &Vec<(String, String)>,
) -> (r: Vec<RegistryExtension>)
    ensures
        r@.map_values(|x: RegistryExtension| x@) == merged(
            registry@,
            pair_views(repositories@),
            pair_views(revisions@),
        ),
{
    let ghost f = |p: (String, RegistryEntry)|
        merge_one(p.0@, p.1, pair_views(repositories@), pair_views(revisions@));
    let mut out: Vec<RegistryExtension> = Vec::new();
    let mut i: usize = 0;
    assert(registry@.take(0).filter_map(f) =~= Seq::<RegistryExtensionView>::empty());
    while i < registry.len()
        invariant
            i <= registry@.len(),
            f == (|p: (String, RegistryEntry)|
                merge_one(p.0@, p.1, pair_views(repositories@), pair_views(revisions@))),
            out@.map_values(|x: RegistryExtension| x@) =~= registry@.take(i as int).filter_map(f),
        decreases registry@.len() - i,
    {
        proof {
            registry@.lemma_filter_map_take_succ(f, i as int);
        }
        let name = &registry[i].0;
        let entry = &registry[i].1;
        let repository = lookup(repositories, entry.submodule.as_str());
        let revision = lookup(revisions, entry.submodule.as_str());
        match (repository, revision) {
            (Some(repository), Some(rev)) => {
                let ext = RegistryExtension {
                    name: name.clone(),
                    version: entry.version.clone(),
                    repository,
                    path: copy_opt(&entry.path),
                    rev,
                };
                let ghost prev = out@;
                out.push(ext);
                assert(out@.map_values(|x: RegistryExtension| x@) =~= prev.map_values(
                    |x: RegistryExtension| x@,
                ) + seq![ext@]);
            },
            _ => {},
        }
        i = i + 1;
    }
    assert(registry@.take(registry@.len() as int) =~= registry@);
    out
}

} // verus!

verus! {

/// `t[j]` is the last pair of `t` with key `k`.
pub open spec fn last_key_at(t: Seq<(Seq<char>, Seq<char>)>, k: Seq<char>, j: int) -> bool {
    &&& 0 <= j < t.len()
    &&& t[j].0 == k
    &&& forall|m: int| j < m < t.len() ==> #[trigger] t[m].0 != k
}

/// A table holds for a key the value of its last pair with that key, and
/// nothing for a key no pair has.
pub proof fn lemma_last_value_law(t: Seq<(Seq<char>, Seq<char>)>, k: Seq<char>)
    ensures
        (forall|j: int| 0 <= j < t.len() ==> #[trigger] t[j].0 != k) <==> last_value(t, k) is None,
        forall|j: int| #[trigger] last_key_at(t, k, j) ==> last_value(t, k) == Some(t[j].1),
        last_value(t, k) is Some ==> exists|j: int| #[trigger] last_key_at(t, k, j),
    decreases t.len(),
{
    if t.len() > 0 {
        let r = t.drop_last();
        lemma_last_value_law(r, k);
        let n = t.len() - 1;
        if t.last().0 == k {
            assert(t[n].0 == k);
            assert(last_key_at(t, k, n));
            assert forall|j: int| #[trigger] last_key_at(t, k, j) implies last_value(t, k) == Some(
                t[j].1,
            ) by {
                if j < n {
                    assert(t[n].0 != k);
                }
            }
        } else {
            assert(last_value(t, k) == last_value(r, k));
            assert forall|j: int| 0 <= j < r.len() && (forall|i: int| 0 <= i < t.len() ==> #[trigger] t[i].0 != k)
                implies #[trigger] r[j].0 != k by {
                assert(r[j] == t[j]);
            }
            if last_value(t, k) is None {
                assert forall|j: int| 0 <= j < t.len() implies #[trigger] t[j].0 != k by {
                    if j < n {
                        assert(r[j] == t[j]);
                        assert(r[j].0 != k);
                    }
                }
            }
            assert forall|j: int| #[trigger] last_key_at(t, k, j) implies last_value(t, k) == Some(
                t[j].1,
            ) by {
                assert(j < n);
                assert(r[j] == t[j]);
                assert forall|m: int| j < m < r.len() implies #[trigger] r[m].0 != k by {
                    assert(r[m] == t[m]);
                }
                assert(last_key_at(r, k, j));
            }
            if last_value(t, k) is Some {
                let j = choose|j: int| #[trigger] last_key_at(r, k, j);
                assert(r[j] == t[j]);
                assert forall|m: int| j < m < t.len() implies #[trigger] t[m].0 != k by {
                    if m < n {
                        assert(r[m] == t[m]);
                    }
                }
                assert(last_key_at(t, k, j));
            }
        }
    }
}

/// An entry `(name, entry)` of the registry is merged exactly when both
/// tables have a pair keyed by the entry's submodule, whatever its name;
/// the merged extension keeps the entry's name, version and path and takes
/// the values of the last such pairs as repository and revision.
pub proof fn lemma_merge_one_law(
    name: Seq<char>,
    entry: RegistryEntry,
    repositories: Seq<(Seq<char>, Seq<char>)>,
    revisions: Seq<(Seq<char>, Seq<char>)>,
)
    ensures
        merge_one(name, entry, repositories, revisions) is Some <==> (exists|j: int|
            0 <= j < repositories.len() && #[trigger] repositories[j].0 == entry.submodule@) && (
        exists|j: int| 0 <= j < revisions.len() && #[trigger] revisions[j].0 == entry.submodule@),
        merge_one(name, entry, repositories, revisions) matches Some(v) ==> {
            &&& v.name == name
            &&& v.version == entry.version@
            &&& v.path == opt_view(entry.path)
            &&& forall|j: int|
                #[trigger] last_key_at(repositories, entry.submodule@, j) ==> v.repository
                    == repositories[j].1
            &&& forall|j: int|
                #[trigger] last_key_at(revisions, entry.submodule@, j) ==> v.rev == revisions[j].1
        },
{
    let k = entry.submodule@;
    lemma_last_value_law(repositories, k);
    lemma_last_value_law(revisions, k);
    if last_value(repositories, k) is Some {
        let j = choose|j: int| #[trigger] last_key_at(repositories, k, j);
        assert(repositories[j].0 == k);
    }
    if last_value(revisions, k) is Some {
        let j = choose|j: int| #[trigger] last_key_at(revisions, k, j);
        assert(revisions[j].0 == k);
    }
}

/// `c` repeated `n` times.
pub open spec fn repeat_char(c: char, n: nat) -> Seq<char> {
    Seq::new(n, |i: int| c)
}

proof fn lemma_strip_dashes(d: nat, r: Seq<char>)
    requires
        r.len() == 0 || r[0] != '-',
    ensures
        trim_start_matches(repeat_char('-', d) + r, seq!['-']) == r,
    decreases d,
{
    let s = repeat_char('-', d) + r;
    if d > 0 {
        assert(s.take(1) =~= seq!['-']);
        assert(s.skip(1) =~= repeat_char('-', (d - 1) as nat) + r);
        lemma_strip_dashes((d - 1) as nat, r);
    } else {
        assert(s =~= r);
        if r.len() > 0 {
            assert(s.take(1) != seq!['-']) by {
                assert(s.take(1)[0] == r[0]);
            }
        }
    }
}

#[verifier::rlimit(40)]
/// A `git submodule status` line made of `-` marks, a revision, a space
/// and a path gives the path and the whole revision.
pub proof fn lemma_status_pair_law(d: nat, rev: Seq<char>, path: Seq<char>)
    requires
        !rev.contains(' '),
        rev.len() == 0 || rev[0] != '-',
    ensures
        status_pair(repeat_char('-', d) + rev + seq![' '] + path) == (path, rev),
{
    let dashes = repeat_char('-', d);
    let head = dashes + rev;
    let line = head + seq![' '] + path;
    let n = head.len() as int;
    assert forall|q: int| 0 <= q < n implies line[q] != ' ' by {
        assert(line[q] == head[q]);
        if q < d {
            assert(head[q] == dashes[q]);
        } else {
            assert(head[q] == rev[q - d]);
            if rev[q - d] == ' ' {
                assert(rev.contains(' '));
            }
        }
    }
    assert(line[n] == ' ');
    crate::text::lemma_count_before(line, ' ', n);
    assert(line.take(n) =~= head);
    assert(line.skip(n + 1) =~= path);
    lemma_strip_dashes(d, rev);
}

/// A `.gitmodules` listing line `submodule.<path>.url=<url>.git` gives the
/// path and the repository without `.git`, where the key's remainder does
/// not start with `submodule.`, the path does not end in `.url`, the key
/// holds no `=` and the url does not end in `.git`.
pub proof fn lemma_url_pair_law(path: Seq<char>, url: Seq<char>)
    requires
        !crate::text::starts_with(path + ".url"@, "submodule."@),
        !crate::text::ends_with(path, ".url"@),
        !path.contains('='),
        !crate::text::ends_with(url, ".git"@),
    ensures
        url_pair("submodule."@ + path + ".url"@ + seq!['='] + url + ".git"@) == (path, url),
{
    reveal_strlit("submodule.");
    reveal_strlit(".url");
    reveal_strlit(".git");
    let key = "submodule."@ + path + ".url"@;
    let value = url + ".git"@;
    let line = key + seq!['='] + value;
    assert forall|q: int| 0 <= q < key.len() implies line[q] != '=' by {
        assert(line[q] == key[q]);
        if 10 <= q < 10 + path.len() {
            assert(key[q] == path[q - 10]);
        }
    }
    crate::text::lemma_count_before(line, '=', key.len() as int);
    assert(line.take(key.len() as int) =~= key);
    assert(line.skip(key.len() as int + 1) =~= value);
    let k1 = path + ".url"@;
    assert(key.take(10) =~= "submodule."@);
    assert(key.skip(10) =~= k1);
    assert(trim_start_matches(k1, "submodule."@) == k1);
    assert(crate::text::starts_with(key, "submodule."@));
    assert(trim_start_matches(key, "submodule."@) == trim_start_matches(key.skip(10), "submodule."@));
    assert(trim_start_matches(key, "submodule."@) == k1);
    assert(k1.skip(k1.len() - 4) =~= ".url"@);
    assert(k1.take(k1.len() - 4) =~= path);
    assert(trim_end_matches(path, ".url"@) == path);
    assert(crate::text::ends_with(k1, ".url"@));
    assert(trim_end_matches(k1, ".url"@) == trim_end_matches(k1.take(k1.len() - 4), ".url"@));
    assert(trim_end_matches(k1, ".url"@) == path);
    assert(value.skip(value.len() - 4) =~= ".git"@);
    assert(value.take(value.len() - 4) =~= url);
    assert(trim_end_matches(url, ".git"@) == url);
    assert(crate::text::ends_with(value, ".git"@));
    assert(trim_end_matches(value, ".git"@) == trim_end_matches(value.take(value.len() - 4), ".git"@));
    assert(trim_end_matches(value, ".git"@) == url);
    assert(line[key.len() as int] == '=');
    assert(split_once(line, '=') == Some((key, value)));
    assert(("submodule."@ + path + ".url"@ + seq!['='] + url + ".git"@) =~= line);
}

} // verus!
