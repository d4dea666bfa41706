//! Grammars of an extension: their ids, their roots, and the ordered
//! result of processing all of an extension's grammars.

use vstd::prelude::*;

use crate::order::{same_runs, sort_by_key, sorted_by_key};
use crate::output::{Extension, ExtensionKind, Grammar, Source};
use crate::text::{concat_str, opt_view, trim_start_matches, trim_start_matches_of, views};

verus! {

/// The grammars of one extension, ordered by id, and their ids.
#[derive(Debug, Clone, PartialEq, Eq)]
pub struct ProcessedGrammars {
    pub grammars: Vec<Grammar>,
    pub ids: Vec<String>,
}

/// The id of grammar `name` of extension `extension`: `<extension>_<name>`.
pub open spec fn grammar_id_of(extension: Seq<char>, name: Seq<char>) -> Seq<char> {
    extension + "_"@ + name
}

/// The id of grammar `name` of extension `extension`.
pub fn grammar_id(extension: &str, name: &str) -> (r: String)
    ensures
        r@ == grammar_id_of(extension@, name@),
{
    let head = concat_str(extension, "_");
    concat_str(head.as_str(), name)
}

/// The root of a grammar inside its repository: its manifest path without
/// leading `./` segments.
pub open spec fn grammar_root_of(path: Option<Seq<char>>) -> Option<Seq<char>> {
    match path {
        Some(p) => Some(trim_start_matches(p, "./"@)),
        None => None,
    }
}

/// The root of a grammar inside its repository.
pub fn grammar_root(path: &Option<String>) -> (r: Option<String>)
    ensures
        opt_view(r) == grammar_root_of(opt_view(*path)),
{
    match path {
        Some(p) => Some(trim_start_matches_of(p.as_str(), "./")),
        None => None,
    }
}

/// The record of grammar `name` of extension `extension`, checked out at
/// `rev` and pinned to `src`, with `path` as given in the manifest.
pub fn make_grammar(extension: &str, name: String, rev: String, src: Source, path: &Option<String>) -> (r:
    Grammar)
    ensures
        r.id@ == grammar_id_of(extension@, name@),
        r.name == name,
        r.version == rev,
        r.src == src,
        opt_view(r.root) == grammar_root_of(opt_view(*path)),
{
    let id = grammar_id(extension, name.as_str());
    Grammar { id, name, version: rev, src, root: grammar_root(path) }
}

/// The ids of `grammars`, in order.
pub open spec fn ids_of(grammars: Seq<Grammar>) -> Seq<Seq<char>> {
    grammars.map_values(|g: Grammar| g.id@)
}

/// Orders the processed grammars of an extension by id, keeping grammars
/// with equal ids in their order, and lists their ids.
pub fn collect_grammars(grammars: Vec<Grammar>) -> (r: ProcessedGrammars)
    ensures
        r.grammars@.len() == grammars@.len(),
        sorted_by_key(r.grammars@),
        same_runs(r.grammars@, grammars@),
        views(r.ids@) == ids_of(r.grammars@),
{
    let sorted = sort_by_key(grammars);
    let mut ids: Vec<String> = Vec::new();
    let mut i: usize = 0;
    while i < sorted.len()
        invariant
            i <= sorted@.len(),
            views(ids@) =~= ids_of(sorted@).take(i as int),
        decreases sorted@.len() - i,
    {
        let ghost prev = views(ids@);
        ids.push(sorted[i].id.clone());
        assert(views(ids@) =~= prev.push(sorted@[i as int].id@));
        i = i + 1;
    }
    assert(ids_of(sorted@).take(sorted@.len() as int) =~= ids_of(sorted@));
    ProcessedGrammars { grammars: sorted, ids }
}

/// The layout of a processed extension without a Cargo project: built as
/// it is, rooted where the registry places it in its repository.
pub fn plain_layout(path: &Option<String>) -> (r: (ExtensionKind, Option<String>))
    ensures
        r.0 == ExtensionKind::Plain,
        opt_view(r.1) == opt_view(*path),
{
    let root = match path {
        Some(p) => Some(p.clone()),
        None => None,
    };
    (ExtensionKind::Plain, root)
}

/// The catalogue record of a processed extension, with the grammars it
/// ships: `name` at `version`, pinned to `src`, laid out as `root` and
/// built as `kind`.
pub fn assemble_extension(
    name: String,
    version: String,
    src: Source,
    root: Option<String>,
    kind: ExtensionKind,
    grammars: ProcessedGrammars,
) -> (r: (Extension, Vec<Grammar>))
    ensures
        r.0 == (Extension { name, version, src, root, grammars: grammars.ids, kind }),
        r.1 == grammars.grammars,
{
    (Extension { name, version, src, root, grammars: grammars.ids, kind }, grammars.grammars)
}

} // verus!

verus! {

/// The root of a grammar has no leading `./` left: taking the root of a
/// root changes nothing.
pub proof fn lemma_grammar_root_idempotent(path: Option<Seq<char>>)
    ensures
        grammar_root_of(grammar_root_of(path)) == grammar_root_of(path),
{
    if let Some(p) = path {
        reveal_strlit("./");
        crate::text::lemma_trim_start_matches_done(p, "./"@);
    }
}

} // verus!

verus! {

/// An extension that lists the ids of its processed grammars comes with a
/// record for every grammar id it lists.
pub proof fn lemma_assembled_extension_backed(e: Extension, processed: ProcessedGrammars)
    requires
        views(processed.ids@) == ids_of(processed.grammars@),
        e.grammars == processed.ids,
    ensures
        crate::catalog::records_complete(seq![e], processed.grammars@),
{
    assert forall|i: int, id: Seq<char>|
        0 <= i < seq![e].len() && #[trigger] crate::catalog::lists_id(seq![e][i], id) implies crate::catalog::has_record(
        processed.grammars@,
        id,
    ) by {
        assert(seq![e][i] == e);
        let k = choose|k: int| 0 <= k < views(e.grammars@).len() && views(e.grammars@)[k] == id;
        assert(ids_of(processed.grammars@)[k] == processed.grammars@[k].id@);
    }
}


/// A grammar has a root exactly when its manifest names a path; the root
/// is the tail of that path left after its leading `./` segments, and does
/// not itself start with `./`.
pub proof fn lemma_grammar_root_law(path: Option<Seq<char>>)
    ensures
        grammar_root_of(path) is Some <==> path is Some,
        path matches Some(p) ==> (grammar_root_of(path) matches Some(r) && !crate::text::starts_with(
            r,
            "./"@,
        ) && exists|n: nat| p == crate::text::copies("./"@, n) + r),
{
    if let Some(p) = path {
        reveal_strlit("./");
        crate::text::lemma_trim_start_matches_law(p, "./"@);
    }
}


/// A grammar's id is its extension's name, `_`, and the grammar's name:
/// two grammars of one extension with different names get different ids.
pub proof fn lemma_grammar_id_law(extension: Seq<char>, name: Seq<char>, other: Seq<char>)
    ensures
        grammar_id_of(extension, name).len() == extension.len() + 1 + name.len(),
        grammar_id_of(extension, name).take(extension.len() as int) == extension,
        grammar_id_of(extension, name)[extension.len() as int] == '_',
        grammar_id_of(extension, name).skip(extension.len() as int + 1) == name,
        grammar_id_of(extension, name) == grammar_id_of(extension, other) ==> name == other,
{
    reveal_strlit("_");
    let id = grammar_id_of(extension, name);
    let id2 = grammar_id_of(extension, other);
    assert(id.take(extension.len() as int) =~= extension);
    assert(id.skip(extension.len() as int + 1) =~= name);
    assert(id2.skip(extension.len() as int + 1) =~= other);
}

} // verus!
