//! Decisions of the `install` and `populate` commands that do not touch
//! the file system.

use vstd::prelude::*;

use crate::text::{
    chars_of, concat_str, count_before, find_from, split_once, split_once_of, str_eq, substring, views,
};

verus! {

/// `base` joined with the relative path `rel` (as `Path::join` does): a
/// `/` goes between them unless `base` is empty or already ends in `/`.
pub open spec fn joined(base: Seq<char>, rel: Seq<char>) -> Seq<char> {
    if base.len() == 0 || base.last() == '/' {
        base + rel
    } else {
        base + "/"@ + rel
    }
}

/// `base` joined with the relative path `rel`.
pub fn join_path(base: &str, rel: &str) -> (r: String)
    ensures
        r@ == joined(base@, rel@),
{
    let n = base.unicode_len();
    if n == 0 || base.get_char(n - 1) == '/' {
        concat_str(base, rel)
    } else {
        let with_sep = concat_str(base, "/");
        concat_str(with_sep.as_str(), rel)
    }
}

/// A `name:path` argument of `install` that lacks the `:`.
#[derive(Debug, Clone, PartialEq, Eq)]
pub struct GrammarArgError {
    pub argument: String,
}

impl GrammarArgError {
    /// The message the command fails with.
    pub fn message(&self) -> (r: String)
        ensures
            r@ == "Invalid grammar argument: '"@ + self.argument@ + "' (expected name:path)"@,
    {
        let head = concat_str("Invalid grammar argument: '", self.argument.as_str());
        concat_str(head.as_str(), "' (expected name:path)")
    }
}

/// The grammar name and the directory of built grammars that a `name:path`
/// argument of `install` names: the argument is split at its first `:`,
/// and the directory is `share/zed/grammars` under the path.
pub fn parse_grammar_argument(arg: &str) -> (r: Result<(String, String), GrammarArgError>)
    ensures
        match r {
            Ok((name, dir)) => split_once(arg@, ':') matches Some((n, p)) && name@ == n && dir@
                == joined(p, "share/zed/grammars"@),
            Err(e) => split_once(arg@, ':') is None && e.argument@ == arg@,
        },
{
    match split_once_of(arg, ':') {
        Some((name, path)) => {
            let dir = join_path(path.as_str(), "share/zed/grammars");
            Ok((name, dir))
        },
        None => Err(GrammarArgError { argument: arg.to_owned() }),
    }
}

/// A path segment between `/` separators that names a component: not
/// empty and not `.`.
pub open spec fn is_named_segment(seg: Seq<char>) -> bool {
    seg.len() > 0 && seg != seq!['.']
}

/// The named segments of `s`, split at each `/`, in order.
pub open spec fn named_segments(s: Seq<char>) -> Seq<Seq<char>>
    decreases s.len(),
{
    let n = count_before(s, '/');
    let head = s.take(n as int);
    let rest = if n < s.len() {
        named_segments(s.skip((n + 1) as int))
    } else {
        Seq::<Seq<char>>::empty()
    };
    if is_named_segment(head) {
        seq![head] + rest
    } else {
        rest
    }
}

/// The components of a path, as `Path::components` yields them on Unix: a
/// leading `/` gives a root component (written `/`); otherwise a leading
/// `.` segment gives a current-directory component (written `.`); then
/// each named segment. Empty and further `.` segments give none, so
/// `a//b/` and `a/./b` have the components of `a/b`.
pub open spec fn path_components(s: Seq<char>) -> Seq<Seq<char>> {
    let lead = if s.len() > 0 && s[0] == '/' {
        seq![seq!['/']]
    } else if s.len() > 0 && s[0] == '.' && (s.len() == 1 || s[1] == '/') {
        seq![seq!['.']]
    } else {
        Seq::<Seq<char>>::empty()
    };
    lead + named_segments(s)
}

/// The components of a path.
pub fn components_of(s: &str) -> (r: Vec<String>)
    ensures
        views(r@) == path_components(s@),
{
    let cs = chars_of(s);
    let mut out: Vec<String> = Vec::new();
    if cs.len() > 0 && cs[0] == '/' {
        out.push("/".to_owned());
    } else if cs.len() > 0 && cs[0] == '.' && (cs.len() == 1 || cs[1] == '/') {
        out.push(".".to_owned());
    }
    proof {
        reveal_strlit("/");
        reveal_strlit(".");
    }
    assert("/"@ =~= seq!['/']);
    assert("."@ =~= seq!['.']);
    let ghost lead = views(out@);
    assert(lead =~= (if s@.len() > 0 && s@[0] == '/' {
        seq![seq!['/']]
    } else if s@.len() > 0 && s@[0] == '.' && (s@.len() == 1 || s@[1] == '/') {
        seq![seq!['.']]
    } else {
        Seq::<Seq<char>>::empty()
    }));
    let mut pos: usize = 0;
    let mut done = false;
    assert(s@.skip(0) =~= s@);
    while !done
        invariant
            cs@ == s@,
            pos <= cs@.len(),
            !done ==> named_segments(s@) == views(out@).skip(lead.len() as int) + named_segments(
                s@.skip(pos as int),
            ),
            done ==> named_segments(s@) == views(out@).skip(lead.len() as int),
            views(out@).take(lead.len() as int) == lead,
            views(out@).len() >= lead.len(),
        decreases (if done { 0 } else { cs@.len() + 1 - pos }),
    {
        let ghost rest = s@.skip(pos as int);
        let ghost prev = views(out@);
        let k = find_from(&cs, pos, '/');
        let named = k > pos && !(k == pos + 1 && cs[pos] == '.');
        let ghost seg = rest.take(k - pos);
        assert(seg =~= cs@.subrange(pos as int, k as int));
        assert(named == is_named_segment(seg)) by {
            if k == pos + 1 {
                assert(seg.len() == 1);
                if seg =~= seq!['.'] {
                    assert(cs@[pos as int] == '.');
                }
                if cs@[pos as int] == '.' {
                    assert(seg =~= seq!['.']);
                }
            }
        }
        if named {
            let piece = substring(s, pos, k);
            out.push(piece);
            assert(views(out@) =~= prev.push(seg));
            assert(views(out@).take(lead.len() as int) =~= prev.take(lead.len() as int));
            assert(views(out@).skip(lead.len() as int) =~= prev.skip(lead.len() as int) + seq![
                seg,
            ]);
        }
        if k < cs.len() {
            assert(rest.skip(k - pos + 1) =~= s@.skip(k + 1));
            pos = k + 1;
        } else {
            done = true;
        }
    }
    assert(views(out@) =~= lead + views(out@).skip(lead.len() as int));
    out
}

/// Whether two component lists are the same.
fn same_components(a: &Vec<String>, b: &Vec<String>) -> (r: bool)
    ensures
        r == (views(a@) == views(b@)),
{
    if a.len() != b.len() {
        assert(views(a@).len() != views(b@).len());
        return false;
    }
    let mut i: usize = 0;
    while i < a.len()
        invariant
            i <= a@.len(),
            a@.len() == b@.len(),
            forall|k: int| 0 <= k < i ==> a@[k]@ == b@[k]@,
        decreases a@.len() - i,
    {
        if !str_eq(a[i].as_str(), b[i].as_str()) {
            assert(views(a@)[i as int] != views(b@)[i as int]);
            return false;
        }
        i = i + 1;
    }
    assert(views(a@) =~= views(b@));
    true
}

/// Some path of `list` has the components of `item`.
pub open spec fn lists_path(list: Seq<String>, item: Seq<char>) -> bool {
    exists|j: int| 0 <= j < list.len() && path_components(#[trigger] list[j]@) == path_components(item)
}

/// Adds the path `item` to `list` unless the list holds a path with the
/// same components already (paths compare as `Path`s do).
pub fn add_missing(list: &mut Vec<String>, item: String)
    ensures
        views(final(list)@) == add_one(views(old(list)@), item@),
{
    proof {
        lemma_lists_path_listed(list@, item@);
    }
    let target = components_of(item.as_str());
    let mut i: usize = 0;
    while i < list.len()
        invariant
            i <= list@.len(),
            views(target@) == path_components(item@),
            forall|k: int| 0 <= k < i ==> path_components(#[trigger] list@[k]@) != path_components(
                item@,
            ),
        decreases list@.len() - i,
    {
        let c = components_of(list[i].as_str());
        if same_components(&c, &target) {
            assert(path_components(list@[i as int]@) == path_components(item@));
            assert(lists_path(list@, item@));
            proof {
                lemma_lists_path_listed(list@, item@);
            }
            return;
        }
        i = i + 1;
    }
    let ghost prev = views(list@);
    let ghost iv = item@;
    list.push(item);
    assert(views(list@) =~= prev.push(iv));
}

} // verus!

verus! {

/// Some path of `list` has the components of `item`.
pub open spec fn listed(list: Seq<Seq<char>>, item: Seq<char>) -> bool {
    exists|j: int| 0 <= j < list.len() && path_components(#[trigger] list[j]) == path_components(item)
}

/// `list` with `item` appended unless a path with its components is listed.
pub open spec fn add_one(list: Seq<Seq<char>>, item: Seq<char>) -> Seq<Seq<char>> {
    if listed(list, item) {
        list
    } else {
        list.push(item)
    }
}

/// `list` with each path of `found` added in turn, unless listed.
pub open spec fn added_all(list: Seq<Seq<char>>, found: Seq<Seq<char>>) -> Seq<Seq<char>>
    decreases found.len(),
{
    if found.len() == 0 {
        list
    } else {
        add_one(added_all(list, found.drop_last()), found.last())
    }
}

proof fn lemma_lists_path_listed(list: Seq<String>, item: Seq<char>)
    ensures
        lists_path(list, item) == listed(views(list), item),
{
    if lists_path(list, item) {
        let j = choose|j: int| 0 <= j < list.len() && path_components(#[trigger] list[j]@) == path_components(item);
        assert(views(list)[j] == list[j]@);
    }
    if listed(views(list), item) {
        let j = choose|j: int| 0 <= j < views(list).len() && path_components(#[trigger] views(list)[j]) == path_components(item);
        assert(views(list)[j] == list[j]@);
    }
}

/// Adds each path of `found` to `list` in turn, unless a path with its
/// components is listed already.
pub fn add_all_missing(list: &mut Vec<String>, found: &Vec<String>)
    ensures
        views(final(list)@) == added_all(views(old(list)@), views(found@)),
{
    let ghost start = views(list@);
    let mut i: usize = 0;
    assert(views(found@).take(0) =~= Seq::<Seq<char>>::empty());
    while i < found.len()
        invariant
            i <= found@.len(),
            views(list@) == added_all(start, views(found@).take(i as int)),
        decreases found@.len() - i,
    {
        let ghost before = list@;
        assert(views(found@).take(i + 1).drop_last() =~= views(found@).take(i as int));
        assert(views(found@).take(i + 1).last() == found@[i as int]@);
        add_missing(list, found[i].clone());
        i = i + 1;
    }
    assert(views(found@).take(found@.len() as int) =~= views(found@));
}

/// The paths of an `extension.toml` that `populate` completes.
#[derive(Debug, Clone, PartialEq, Eq)]
pub struct ManifestPaths {
    pub languages: Vec<String>,
    pub themes: Vec<String>,
    pub icon_themes: Vec<String>,
    /// The snippet files, if the manifest names any.
    pub snippets: Option<Vec<String>>,
}

/// What `populate` found in the extension's directory: the language
/// directories with a `config.toml`, the JSON themes and icon themes, in
/// directory order and relative to the extension, and whether
/// `snippets.json` exists.
#[derive(Debug, Clone, PartialEq, Eq)]
pub struct PopulateScan {
    pub languages: Vec<String>,
    pub themes: Vec<String>,
    pub icon_themes: Vec<String>,
    pub snippets_file: bool,
}

/// The characters of each path of an optional list.
pub open spec fn opt_views(o: Option<Vec<String>>) -> Option<Seq<Seq<char>>> {
    match o {
        Some(v) => Some(views(v@)),
        None => None,
    }
}

/// The snippets of the manifest after `populate`: those named, or else
/// `./snippets.json` where that file exists.
pub open spec fn snippets_after(current: Option<Seq<Seq<char>>>, snippets_file: bool) -> Option<
    Seq<Seq<char>>,
> {
    if current is None && snippets_file {
        Some(seq!["./snippets.json"@])
    } else {
        current
    }
}

/// Completes the manifest's paths with what the scan found: every
/// language, theme and icon theme not listed yet is appended, and
/// `./snippets.json` becomes the snippets where the manifest names none
/// and the file exists.
pub fn populate_paths(manifest: &mut ManifestPaths, scan: &PopulateScan)
    ensures
        views(final(manifest).languages@) == added_all(
            views(old(manifest).languages@),
            views(scan.languages@),
        ),
        views(final(manifest).themes@) == added_all(views(old(manifest).themes@), views(scan.themes@)),
        views(final(manifest).icon_themes@) == added_all(
            views(old(manifest).icon_themes@),
            views(scan.icon_themes@),
        ),
        opt_views(final(manifest).snippets) == snippets_after(
            opt_views(old(manifest).snippets),
            scan.snippets_file,
        ),
        old(manifest).snippets is Some ==> final(manifest).snippets == old(manifest).snippets,
        !scan.snippets_file ==> final(manifest).snippets == old(manifest).snippets,
{
    add_all_missing(&mut manifest.languages, &scan.languages);
    add_all_missing(&mut manifest.themes, &scan.themes);
    add_all_missing(&mut manifest.icon_themes, &scan.icon_themes);
    if manifest.snippets.is_none() && scan.snippets_file {
        let mut v: Vec<String> = Vec::new();
        v.push("./snippets.json".to_owned());
        assert(views(v@) =~= seq!["./snippets.json"@]);
        manifest.snippets = Some(v);
    }
}

proof fn lemma_add_one_keeps_listed(list: Seq<Seq<char>>, item: Seq<char>, x: Seq<char>)
    requires
        listed(list, x),
    ensures
        listed(add_one(list, item), x),
{
    let j = choose|j: int| 0 <= j < list.len() && path_components(#[trigger] list[j]) == path_components(x);
    assert(add_one(list, item)[j] == list[j]);
}

proof fn lemma_added_all_lists_found(list: Seq<Seq<char>>, found: Seq<Seq<char>>)
    ensures
        forall|k: int| 0 <= k < found.len() ==> listed(added_all(list, found), #[trigger] found[k]),
        forall|x: Seq<char>| listed(list, x) ==> #[trigger] listed(added_all(list, found), x),
    decreases found.len(),
{
    if found.len() > 0 {
        let r = found.drop_last();
        lemma_added_all_lists_found(list, r);
        let prev = added_all(list, r);
        let last = found.last();
        assert forall|k: int| 0 <= k < found.len() implies listed(
            added_all(list, found),
            #[trigger] found[k],
        ) by {
            if k < r.len() {
                assert(found[k] == r[k]);
                lemma_add_one_keeps_listed(prev, last, found[k]);
            } else if !listed(prev, last) {
                let n = prev.len() as int;
                assert(add_one(prev, last)[n] == last);
            }
        }
        assert forall|x: Seq<char>| listed(list, x) implies #[trigger] listed(
            added_all(list, found),
            x,
        ) by {
            lemma_add_one_keeps_listed(prev, last, x);
        }
    }
}

proof fn lemma_added_all_when_listed(list: Seq<Seq<char>>, found: Seq<Seq<char>>)
    requires
        forall|k: int| 0 <= k < found.len() ==> listed(list, #[trigger] found[k]),
    ensures
        added_all(list, found) == list,
    decreases found.len(),
{
    if found.len() > 0 {
        let r = found.drop_last();
        assert forall|k: int| 0 <= k < r.len() implies listed(list, #[trigger] r[k]) by {
            assert(r[k] == found[k]);
        }
        lemma_added_all_when_listed(list, r);
        assert(listed(list, found[found.len() - 1]));
    }
}

/// Running `populate` on what it produced, with the same scan, changes
/// nothing: no path is appended twice and the snippets stay as they are.
pub proof fn lemma_populate_idempotent(
    list: Seq<Seq<char>>,
    found: Seq<Seq<char>>,
    snippets: Option<Seq<Seq<char>>>,
    snippets_file: bool,
)
    ensures
        added_all(added_all(list, found), found) == added_all(list, found),
        snippets_after(snippets_after(snippets, snippets_file), snippets_file) == snippets_after(
            snippets,
            snippets_file,
        ),
{
    lemma_added_all_lists_found(list, found);
    lemma_added_all_when_listed(added_all(list, found), found);
}

} // verus!

verus! {

/// Snippets the manifest names stay as they are, whatever the scan finds;
/// without `./snippets.json` nothing changes; with it and no snippets
/// named, the snippets become that one file.
pub proof fn lemma_snippets_rule(
    named: Seq<Seq<char>>,
    current: Option<Seq<Seq<char>>>,
    snippets_file: bool,
)
    ensures
        snippets_after(Some(named), snippets_file) == Some(named),
        snippets_after(current, false) == current,
        snippets_after(None, true) == Some(seq!["./snippets.json"@]),
{
}

/// Adding found paths keeps the listed paths in front, in order; every
/// found path ends up listed; every appended path is a found one that was
/// not listed before it, and no two appended paths share components.
pub proof fn lemma_added_all_law(list: Seq<Seq<char>>, found: Seq<Seq<char>>)
    ensures
        added_all(list, found).len() >= list.len(),
        added_all(list, found).take(list.len() as int) == list,
        forall|k: int| 0 <= k < found.len() ==> listed(added_all(list, found), #[trigger] found[k]),
        forall|i: int|
            list.len() <= i < added_all(list, found).len() ==> found.contains(
                #[trigger] added_all(list, found)[i],
            ) && !listed(added_all(list, found).take(i), added_all(list, found)[i]),
    decreases found.len(),
{
    lemma_added_all_lists_found(list, found);
    if found.len() > 0 {
        let r = found.drop_last();
        lemma_added_all_law(list, r);
        let prev = added_all(list, r);
        let last = found.last();
        let next = added_all(list, found);
        if listed(prev, last) {
            assert(next == prev);
        } else {
            assert(next == prev.push(last));
        }
        assert(next.take(list.len() as int) =~= prev.take(list.len() as int));
        assert forall|i: int| list.len() <= i < next.len() implies found.contains(
            #[trigger] next[i],
        ) && !listed(next.take(i), next[i]) by {
            if i < prev.len() {
                assert(next[i] == prev[i]);
                assert(next.take(i) =~= prev.take(i));
                assert(r.contains(prev[i]));
                let j = choose|j: int| 0 <= j < r.len() && r[j] == prev[i];
                assert(found[j] == r[j]);
            } else {
                assert(next[i] == last);
                assert(next.take(i) =~= prev);
                assert(found[found.len() - 1] == last);
            }
        }
    }
}


/// Joining puts the relative path after the base, with exactly one `/`
/// between them where the base is not empty and does not end with one.
pub proof fn lemma_joined_law(base: Seq<char>, rel: Seq<char>)
    ensures
        crate::text::starts_with(joined(base, rel), base),
        crate::text::ends_with(joined(base, rel), rel),
        base.len() == 0 || base.last() == '/' ==> joined(base, rel).len() == base.len() + rel.len(),
        base.len() > 0 && base.last() != '/' ==> joined(base, rel).len() == base.len() + rel.len()
            + 1 && joined(base, rel)[base.len() as int] == '/',
{
    reveal_strlit("/");
    let j = joined(base, rel);
    assert(j.take(base.len() as int) =~= base);
    assert(j.skip(j.len() - rel.len()) =~= rel);
}


proof fn lemma_single_segment(a: Seq<char>)
    requires
        !a.contains('/'),
    ensures
        named_segments(a) == (if is_named_segment(a) {
            seq![a]
        } else {
            Seq::<Seq<char>>::empty()
        }),
{
    assert forall|q: int| 0 <= q < a.len() implies a[q] != '/' by {
        if a[q] == '/' {
            assert(a.contains('/'));
        }
    }
    crate::text::lemma_count_before(a, '/', a.len() as int);
    assert(a.take(a.len() as int) =~= a);
    assert(seq![a] + Seq::<Seq<char>>::empty() =~= seq![a]);
}

/// The named segments of a path are read one `/` at a time: splitting the
/// text at any `/` splits its segments there, and a piece without `/` is
/// one segment where it is neither empty nor `.`, and none otherwise.
pub proof fn lemma_named_segments_law(a: Seq<char>, b: Seq<char>)
    ensures
        named_segments(a + seq!['/'] + b) == named_segments(a) + named_segments(b),
        !a.contains('/') ==> named_segments(a) == (if is_named_segment(a) {
            seq![a]
        } else {
            Seq::<Seq<char>>::empty()
        }),
    decreases a.len(),
{
    let s = a + seq!['/'] + b;
    let n = count_before(a, '/');
    crate::text::lemma_count_before_spec(a, '/');
    if n < a.len() {
        let a1 = a.take(n as int);
        let a2 = a.skip(n as int + 1);
        assert(a =~= a1 + seq!['/'] + a2);
        lemma_named_segments_law(a2, b);
        assert forall|q: int| 0 <= q < n implies s[q] != '/' by {
            assert(s[q] == a[q]);
        }
        assert(s[n as int] == a[n as int]);
        crate::text::lemma_count_before(s, '/', n as int);
        assert(s.take(n as int) =~= a1);
        assert(s.skip(n as int + 1) =~= a2 + seq!['/'] + b);
        let r = named_segments(a2);
        let t = named_segments(b);
        if is_named_segment(a1) {
            assert(seq![a1] + (r + t) =~= (seq![a1] + r) + t);
        }
    } else {
        assert(!a.contains('/')) by {
            if a.contains('/') {
                let q = choose|q: int| 0 <= q < a.len() && a[q] == '/';
                assert(a[q] != '/');
            }
        }
        lemma_single_segment(a);
        assert forall|q: int| 0 <= q < a.len() implies s[q] != '/' by {
            assert(s[q] == a[q]);
        }
        crate::text::lemma_count_before(s, '/', a.len() as int);
        assert(s.take(a.len() as int) =~= a);
        assert(s.skip(a.len() as int + 1) =~= b);
        if is_named_segment(a) {
            assert(named_segments(s) =~= named_segments(a) + named_segments(b));
        } else {
            assert(named_segments(a) + named_segments(b) =~= named_segments(b));
        }
    }
    if !a.contains('/') {
        lemma_single_segment(a);
    }
}


/// A trailing `/` does not change the components of a non-empty path, nor
/// does doubling a separator: paths compare as `Path`s do.
pub proof fn lemma_path_components_law(a: Seq<char>, b: Seq<char>)
    ensures
        a.len() > 0 ==> path_components(a + seq!['/']) == path_components(a),
        a.len() > 0 ==> path_components(a + seq!['/', '/'] + b) == path_components(
            a + seq!['/'] + b,
        ),
{
    let e = Seq::<char>::empty();
    lemma_named_segments_law(a, e);
    assert(a + seq!['/'] + e =~= a + seq!['/']);
    assert(named_segments(e) =~= Seq::<Seq<char>>::empty()) by {
        crate::text::lemma_count_before(e, '/', 0);
        assert(e.take(0) =~= e);
    }
    assert(named_segments(a) + named_segments(e) =~= named_segments(a));
    lemma_named_segments_law(a, seq!['/'] + b);
    lemma_named_segments_law(e, b);
    assert(e + seq!['/'] + b =~= seq!['/'] + b);
    assert(a + seq!['/'] + (seq!['/'] + b) =~= a + seq!['/', '/'] + b);
    assert(Seq::<Seq<char>>::empty() + named_segments(b) =~= named_segments(b));
    lemma_named_segments_law(a, b);
    if a.len() > 0 {
        let s1 = a + seq!['/'];
        let s2 = a + seq!['/', '/'] + b;
        let s3 = a + seq!['/'] + b;
        assert(s1[0] == a[0]);
        assert(s2[0] == a[0]);
        assert(s3[0] == a[0]);
        if a.len() > 1 {
            assert(s1[1] == a[1]);
            assert(s2[1] == a[1]);
            assert(s3[1] == a[1]);
        } else {
            assert(s1[1] == '/');
            assert(s2[1] == '/');
            assert(s3[1] == '/');
        }
    }
}

} // verus!
