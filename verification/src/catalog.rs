//! The steps of a sync that edit the catalogue: dropping extensions the
//! registry no longer lists, choosing the registry extensions to process,
//! folding in each processed extension, ordering the result, and telling
//! stale output files apart.

use vstd::prelude::*;

use crate::order::{same_runs, sort_by_key, sorted_by_key};
use crate::output::{Extension, Grammar, NixExtensions};
use crate::registry::{registry_names, strictly_ordered, RegistryEntry, RegistryExtension};
use crate::text::{contains_str, lex_le, str_eq, views};

verus! {

broadcast use vstd::seq_lib::group_seq_properties;

/// Some extension of `exts` is named `name`.
pub open spec fn named(exts: Seq<Extension>, name: Seq<char>) -> bool {
    exists|i: int| 0 <= i < exts.len() && #[trigger] exts[i].name@ == name
}

/// `exts[i]` is the first extension of `exts` named `name`.
pub open spec fn first_named(exts: Seq<Extension>, name: Seq<char>, i: int) -> bool {
    &&& 0 <= i < exts.len()
    &&& exts[i].name@ == name
    &&& forall|j: int| 0 <= j < i ==> #[trigger] exts[j].name@ != name
}

/// No two extensions of `exts` share a name.
pub open spec fn unique_names(exts: Seq<Extension>) -> bool {
    forall|i: int, j: int|
        0 <= i < exts.len() && 0 <= j < exts.len() && i != j ==> #[trigger] exts[i].name@
            != #[trigger] exts[j].name@
}

/// The index of the first extension of `exts` named `name`, if any.
pub fn find_named(exts: &Vec<Extension>, name: &str) -> (r: Option<usize>)
    ensures
        match r {
            Some(i) => first_named(exts@, name@, i as int),
            None => !named(exts@, name@),
        },
{
    let mut i: usize = 0;
    while i < exts.len()
        invariant
            i <= exts@.len(),
            forall|j: int| 0 <= j < i ==> #[trigger] exts@[j].name@ != name@,
        decreases exts@.len() - i,
    {
        if str_eq(exts[i].name.as_str(), name) {
            return Some(i);
        }
        i = i + 1;
    }
    None
}

/// Whether the registry has an entry named `name`.
pub fn in_registry(registry: &Vec<(String, RegistryEntry)>, name: &str) -> (r: bool)
    ensures
        r == registry_names(registry@).contains(name@),
{
    let mut i: usize = 0;
    while i < registry.len()
        invariant
            i <= registry@.len(),
            forall|j: int| 0 <= j < i ==> #[trigger] registry@[j].0@ != name@,
        decreases registry@.len() - i,
    {
        if str_eq(registry[i].0.as_str(), name) {
            assert(registry_names(registry@)[i as int] == name@);
            return true;
        }
        i = i + 1;
    }
    assert forall|j: int| 0 <= j < registry_names(registry@).len() implies registry_names(
        registry@,
    )[j] != name@ by {
        assert(registry_names(registry@)[j] == registry@[j].0@);
    }
    false
}

/// The extension is listed in the registry.
pub open spec fn maintained(registry: Seq<(String, RegistryEntry)>, e: Extension) -> bool {
    registry_names(registry).contains(e.name@)
}

/// The grammar id `id` belongs to an extension that leaves the catalogue:
/// the first extension of its name, where the registry no longer lists
/// that name, ships a grammar with this id.
pub open spec fn dropped_id(
    exts: Seq<Extension>,
    registry: Seq<(String, RegistryEntry)>,
    id: Seq<char>,
) -> bool {
    exists|i: int|
        #![trigger exts[i]]
        first_named(exts, exts[i].name@, i) && !maintained(registry, exts[i]) && views(
            exts[i].grammars@,
        ).contains(id)
}

fn is_dropped(exts: &Vec<Extension>, registry: &Vec<(String, RegistryEntry)>, id: &str) -> (r:
    bool)
    ensures
        r == dropped_id(exts@, registry@, id@),
{
    let mut i: usize = 0;
    while i < exts.len()
        invariant
            i <= exts@.len(),
            forall|j: int|
                #![trigger exts@[j]]
                0 <= j < i ==> !(first_named(exts@, exts@[j].name@, j) && !maintained(
                    registry@,
                    exts@[j],
                ) && views(exts@[j].grammars@).contains(id@)),
        decreases exts@.len() - i,
    {
        let e = &exts[i];
        if !in_registry(registry, e.name.as_str()) && contains_str(&e.grammars, id) {
            let first = find_named(exts, e.name.as_str());
            if first == Some(i) {
                return true;
            }
            proof {
                if first_named(exts@, exts@[i as int].name@, i as int) {
                    assert(first matches Some(k) && k == i);
                }
            }
        }
        i = i + 1;
    }
    false
}

/// Drops from the catalogue the extensions that the registry no longer
/// lists, with the grammars of each (those of the first extension of
/// each such name).
pub fn remove_unmaintained(output: &mut NixExtensions, registry: &Vec<(String, RegistryEntry)>)
    ensures
        final(output).extensions@ == old(output).extensions@.filter(
            |e: Extension| maintained(registry@, e),
        ),
        final(output).grammars@ == old(output).grammars@.filter(
            |g: Grammar| !dropped_id(old(output).extensions@, registry@, g.id@),
        ),
{
    let ghost exts = output.extensions@;
    let ghost gs0 = output.grammars@;
    let ghost keep_g = |g: Grammar| !dropped_id(exts, registry@, g.id@);
    let mut gs: Vec<Grammar> = Vec::new();
    std::mem::swap(&mut gs, &mut output.grammars);
    let mut kept: Vec<Grammar> = Vec::new();
    for g in it: gs.into_iter()
        invariant
            it.seq() == gs0,
            output.extensions@ == exts,
            keep_g == (|g: Grammar| !dropped_id(exts, registry@, g.id@)),
            kept@ == gs0.take(it.index() as int).filter(keep_g),
    {
        assert(gs0.take(it.index() + 1) == gs0.take(it.index() as int).push(g));
        proof {
            gs0.take(it.index() as int).lemma_filter_push(g, keep_g);
        }
        if !is_dropped(&output.extensions, registry, g.id.as_str()) {
            kept.push(g);
        }
    }
    assert(gs0.take(gs0.len() as int) == gs0);
    output.grammars = kept;
    let ghost keep_e = |e: Extension| maintained(registry@, e);
    let mut es: Vec<Extension> = Vec::new();
    std::mem::swap(&mut es, &mut output.extensions);
    let mut kept_e: Vec<Extension> = Vec::new();
    for e in it: es.into_iter()
        invariant
            it.seq() == exts,
            keep_e == (|e: Extension| maintained(registry@, e)),
            kept_e@ == exts.take(it.index() as int).filter(keep_e),
    {
        assert(exts.take(it.index() + 1) == exts.take(it.index() as int).push(e));
        proof {
            exts.take(it.index() as int).lemma_filter_push(e, keep_e);
        }
        if in_registry(registry, e.name.as_str()) {
            kept_e.push(e);
        }
    }
    assert(exts.take(exts.len() as int) == exts);
    output.extensions = kept_e;
}

} // verus!

verus! {

/// The registry extension `c` has to be processed: the catalogue holds no
/// extension of its name, or the first one it holds is at another version.
/// Only extensions that have not changed are skipped.
pub open spec fn needs_sync(exts: Seq<Extension>, c: RegistryExtension) -> bool {
    ||| !named(exts, c.name@)
    ||| exists|i: int|
        #![trigger exts[i]]
        first_named(exts, c.name@, i) && exts[i].version@ != c.version@
}

/// Whether the registry extension `c` has to be processed.
pub fn is_outdated(existing: &Vec<Extension>, c: &RegistryExtension) -> (r: bool)
    ensures
        r == needs_sync(existing@, *c),
        !named(existing@, c.name@) ==> r,
        forall|i: int|
            #![trigger existing@[i]]
            first_named(existing@, c.name@, i) ==> (r <==> existing@[i].version@ != c.version@),
{
    proof {
        assert forall|i: int|
            #![trigger existing@[i]]
            first_named(existing@, c.name@, i) implies (needs_sync(existing@, *c)
                <==> existing@[i].version@ != c.version@) by {
            lemma_needs_sync_rule(existing@, *c, i);
        }
    }
    match find_named(existing, c.name.as_str()) {
        None => true,
        Some(i) => {
            let skip = str_eq(c.version.as_str(), existing[i].version.as_str());
            proof {
                if !skip {
                    assert(first_named(existing@, c.name@, i as int));
                } else {
                    assert forall|k: int|
                        #![trigger existing@[k]]
                        first_named(existing@, c.name@, k) implies existing@[k].version@
                        == c.version@ by {
                        if k < i {
                            assert(existing@[k].name@ != c.name@);
                        }
                        if k > i {
                            assert(existing@[i as int].name@ != c.name@);
                        }
                    }
                }
            }
            !skip
        },
    }
}

/// The registry extensions to process: those of `candidates`, in order,
/// that the catalogue lacks or holds at another version.
pub fn select_outdated(candidates: Vec<RegistryExtension>, existing: &Vec<Extension>) -> (r: Vec<
    RegistryExtension,
>)
    ensures
        r@ == candidates@.filter(|c: RegistryExtension| needs_sync(existing@, c)),
{
    let ghost cs = candidates@;
    let ghost keep = |c: RegistryExtension| needs_sync(existing@, c);
    let mut out: Vec<RegistryExtension> = Vec::new();
    for c in it: candidates.into_iter()
        invariant
            it.seq() == cs,
            keep == (|c: RegistryExtension| needs_sync(existing@, c)),
            out@ == cs.take(it.index() as int).filter(keep),
    {
        assert(cs.take(it.index() + 1) == cs.take(it.index() as int).push(c));
        proof {
            cs.take(it.index() as int).lemma_filter_push(c, keep);
        }
        if is_outdated(existing, &c) {
            out.push(c);
        }
    }
    assert(cs.take(cs.len() as int) == cs);
    out
}

/// The extensions of `exts` not named `name`, in order.
pub open spec fn without_name(exts: Seq<Extension>, name: Seq<char>) -> Seq<Extension> {
    exts.filter(not_named(name))
}

/// The predicate "is not named `name`".
pub open spec fn not_named(name: Seq<char>) -> spec_fn(Extension) -> bool {
    |e: Extension| e.name@ != name
}

/// The ids of the grammars of the first extension of `exts` named `name`.
pub open spec fn outdated_ids(exts: Seq<Extension>, name: Seq<char>) -> Seq<Seq<char>> {
    views(exts[choose|i: int| first_named(exts, name, i)].grammars@)
}

/// The predicate "is no grammar of the first extension of `exts` named
/// `name`".
pub open spec fn not_outdated(exts: Seq<Extension>, name: Seq<char>) -> spec_fn(Grammar) -> bool {
    |g: Grammar| !outdated_ids(exts, name).contains(g.id@)
}

/// The catalogue (extensions, grammars) after folding in the processed
/// extension `e` with its grammars `new_grammars`.
pub open spec fn apply_step(
    exts: Seq<Extension>,
    grammars: Seq<Grammar>,
    e: Extension,
    new_grammars: Seq<Grammar>,
) -> (Seq<Extension>, Seq<Grammar>) {
    (
        without_name(exts, e.name@).push(e),
        (if named(exts, e.name@) {
            grammars.filter(not_outdated(exts, e.name@))
        } else {
            grammars
        }) + new_grammars,
    )
}

/// Folds a processed extension and its grammars into the catalogue. Any
/// extension of the same name leaves it, with the grammars of the first
/// such extension; the new extension and its grammars are appended.
pub fn apply_processed(output: &mut NixExtensions, extension: Extension, grammars: Vec<Grammar>)
    ensures
        (final(output).extensions@, final(output).grammars@) == apply_step(
            old(output).extensions@,
            old(output).grammars@,
            extension,
            grammars@,
        ),
{
    let ghost exts = output.extensions@;
    let ghost gs0 = output.grammars@;
    let ghost name = extension.name@;
    match find_named(&output.extensions, extension.name.as_str()) {
        Some(i) => {
            proof {
                assert(first_named(exts, name, i as int));
                assert forall|k: int| first_named(exts, name, k) implies k == i by {
                    if k < i {
                        assert(exts[k].name@ != name);
                    }
                    if k > i {
                        assert(exts[i as int].name@ != name);
                    }
                }
            }
            let ghost ids = outdated_ids(exts, name);
            assert(ids == views(exts[i as int].grammars@));
            let ghost keep_g = not_outdated(exts, name);
            let mut gs: Vec<Grammar> = Vec::new();
            std::mem::swap(&mut gs, &mut output.grammars);
            let mut kept: Vec<Grammar> = Vec::new();
            for g in it: gs.into_iter()
                invariant
                    it.seq() == gs0,
                    output.extensions@ == exts,
                    i < exts.len(),
                    ids == views(exts[i as int].grammars@),
                    ids == outdated_ids(exts, name),
                    keep_g == not_outdated(exts, name),
                    kept@ == gs0.take(it.index() as int).filter(keep_g),
            {
                assert(gs0.take(it.index() + 1) == gs0.take(it.index() as int).push(g));
                proof {
                    gs0.take(it.index() as int).lemma_filter_push(g, keep_g);
                }
                if !contains_str(&output.extensions[i].grammars, g.id.as_str()) {
                    kept.push(g);
                }
            }
            assert(gs0.take(gs0.len() as int) == gs0);
            output.grammars = kept;
        },
        None => {},
    }
    let ghost keep_e = not_named(name);
    let mut es: Vec<Extension> = Vec::new();
    std::mem::swap(&mut es, &mut output.extensions);
    let mut kept_e: Vec<Extension> = Vec::new();
    for e in it: es.into_iter()
        invariant
            it.seq() == exts,
            name == extension.name@,
            keep_e == not_named(name),
            kept_e@ == exts.take(it.index() as int).filter(keep_e),
    {
        assert(exts.take(it.index() + 1) == exts.take(it.index() as int).push(e));
        proof {
            exts.take(it.index() as int).lemma_filter_push(e, keep_e);
        }
        if !str_eq(e.name.as_str(), extension.name.as_str()) {
            kept_e.push(e);
        }
    }
    assert(exts.take(exts.len() as int) == exts);

    kept_e.push(extension);
    output.extensions = kept_e;
    let ghost before = output.grammars@;
    let mut grammars = grammars;
    output.grammars.append(&mut grammars);
    proof {
        if !named(exts, name) {
            assert(before == gs0);
        }
    }
}

/// Orders the catalogue's extensions by name and its grammars by id,
/// keeping records with equal keys in their order.
pub fn sort_catalog(output: &mut NixExtensions)
    ensures
        sorted_by_key(final(output).extensions@),
        same_runs(final(output).extensions@, old(output).extensions@),
        sorted_by_key(final(output).grammars@),
        same_runs(final(output).grammars@, old(output).grammars@),
{
    let mut es: Vec<Extension> = Vec::new();
    std::mem::swap(&mut es, &mut output.extensions);
    output.extensions = sort_by_key(es);
    let mut gs: Vec<Grammar> = Vec::new();
    std::mem::swap(&mut gs, &mut output.grammars);
    output.grammars = sort_by_key(gs);
}

} // verus!

verus! {

proof fn lemma_filter_keeps_all<A>(s: Seq<A>, p: spec_fn(A) -> bool)
    requires
        forall|i: int| 0 <= i < s.len() ==> p(#[trigger] s[i]),
    ensures
        s.filter(p) == s,
    decreases s.len(),
{
    reveal(Seq::filter);
    if s.len() > 0 {
        lemma_filter_keeps_all(s.drop_last(), p);
        assert(s.drop_last().push(s.last()) =~= s);
    }
}

proof fn lemma_filter_unique(s: Seq<Extension>, p: spec_fn(Extension) -> bool)
    requires
        unique_names(s),
    ensures
        unique_names(s.filter(p)),
    decreases s.len(),
{
    reveal(Seq::filter);
    if s.len() > 0 {
        let r = s.drop_last();
        assert(unique_names(r)) by {
            assert forall|i: int, j: int|
                0 <= i < r.len() && 0 <= j < r.len() && i != j implies #[trigger] r[i].name@
                != #[trigger] r[j].name@ by {
                assert(r[i] == s[i]);
                assert(r[j] == s[j]);
            }
        }
        lemma_filter_unique(r, p);
        if p(s.last()) {
            let f = r.filter(p);
            assert forall|i: int| 0 <= i < f.len() implies #[trigger] f[i].name@ != s.last().name@ by {
                r.lemma_filter_contains_rev(p, f[i]);
                let j = choose|j: int| 0 <= j < r.len() && r[j] == f[i];
                assert(r[j] == s[j]);
                assert(s[j].name@ != s[s.len() - 1].name@);
            }
        }
    }
}

/// Folding in a processed extension keeps extension names unique, and
/// leaves the new extension the only one of its name, in last place.
pub proof fn lemma_apply_keeps_names_unique(exts: Seq<Extension>, extension: Extension)
    requires
        unique_names(exts),
    ensures
        unique_names(without_name(exts, extension.name@).push(extension)),
        forall|i: int|
            0 <= i < without_name(exts, extension.name@).len() ==> #[trigger] without_name(
                exts,
                extension.name@,
            )[i].name@ != extension.name@,
{
    let p = not_named(extension.name@);
    let f = exts.filter(p);
    lemma_filter_unique(exts, p);
    assert forall|i: int| 0 <= i < f.len() implies #[trigger] f[i].name@ != extension.name@ by {
        exts.lemma_filter_pred(p, i);
    }
    let r = f.push(extension);
    assert forall|i: int, j: int|
        0 <= i < r.len() && 0 <= j < r.len() && i != j implies #[trigger] r[i].name@
        != #[trigger] r[j].name@ by {
        if i < f.len() && j < f.len() {
            assert(r[i] == f[i]);
            assert(r[j] == f[j]);
        } else if i < f.len() {
            assert(r[i] == f[i]);
        } else {
            assert(r[j] == f[j]);
        }
    }
}

/// Once a processed extension is folded in, the registry extension of the
/// same name and version no longer needs syncing: a sync of an unchanged
/// registry entry is not repeated.
pub proof fn lemma_applied_not_resynced(
    exts: Seq<Extension>,
    extension: Extension,
    c: RegistryExtension,
)
    requires
        c.name@ == extension.name@,
        c.version@ == extension.version@,
    ensures
        !needs_sync(without_name(exts, extension.name@).push(extension), c),
{
    let p = not_named(extension.name@);
    let f = exts.filter(p);
    let r = f.push(extension);
    let last = f.len() as int;
    assert(r[last] == extension);
    assert forall|j: int| 0 <= j < last implies #[trigger] r[j].name@ != c.name@ by {
        exts.lemma_filter_pred(p, j);
        assert(r[j] == f[j]);
    }
    assert(named(r, c.name@));
    assert(first_named(r, c.name@, last));
    assert forall|i: int| #![trigger r[i]] first_named(r, c.name@, i) implies r[i].version@
        == c.version@ by {
        if i < last {
            assert(r[i].name@ != c.name@);
        }
    }
}

/// Dropping the unmaintained extensions leaves only extensions the
/// registry lists, and doing it a second time changes nothing.
pub proof fn lemma_remove_unmaintained_idempotent(
    exts: Seq<Extension>,
    grammars: Seq<Grammar>,
    registry: Seq<(String, RegistryEntry)>,
)
    ensures
        ({
            let exts1 = exts.filter(|e: Extension| maintained(registry, e));
            let grammars1 = grammars.filter(|g: Grammar| !dropped_id(exts, registry, g.id@));
            &&& forall|i: int| 0 <= i < exts1.len() ==> maintained(registry, #[trigger] exts1[i])
            &&& exts1.filter(|e: Extension| maintained(registry, e)) == exts1
            &&& grammars1.filter(|g: Grammar| !dropped_id(exts1, registry, g.id@)) == grammars1
        }),
{
    let pe = |e: Extension| maintained(registry, e);
    let exts1 = exts.filter(pe);
    let grammars1 = grammars.filter(|g: Grammar| !dropped_id(exts, registry, g.id@));
    assert forall|i: int| 0 <= i < exts1.len() implies maintained(registry, #[trigger] exts1[i]) by {
        exts.lemma_filter_pred(pe, i);
    }
    lemma_filter_keeps_all(exts1, pe);
    let pg = |g: Grammar| !dropped_id(exts1, registry, g.id@);
    assert forall|i: int| 0 <= i < grammars1.len() implies pg(#[trigger] grammars1[i]) by {
        if dropped_id(exts1, registry, grammars1[i].id@) {
            let k = choose|k: int|
                #![trigger exts1[k]]
                first_named(exts1, exts1[k].name@, k) && !maintained(registry, exts1[k]) && views(
                    exts1[k].grammars@,
                ).contains(grammars1[i].id@);
            assert(maintained(registry, exts1[k]));
        }
    }
    lemma_filter_keeps_all(grammars1, pg);
}

} // verus!

verus! {

/// Every registry extension that merging yields carries the name of a
/// registry entry, so a sync adds only extensions the registry lists.
pub proof fn lemma_merged_names_in_registry(
    registry: Seq<(String, RegistryEntry)>,
    repositories: Seq<(Seq<char>, Seq<char>)>,
    revisions: Seq<(Seq<char>, Seq<char>)>,
    i: int,
)
    requires
        0 <= i < crate::registry::merged(registry, repositories, revisions).len(),
    ensures
        registry_names(registry).contains(
            crate::registry::merged(registry, repositories, revisions)[i].name,
        ),
{
    let f = |p: (String, RegistryEntry)|
        crate::registry::merge_one(p.0@, p.1, repositories, revisions);
    let m = registry.filter_map(f);
    let v = m[i];
    assert(m.contains(v));
    registry.lemma_filter_map_contains(f, v);
    let t = choose|t: (String, RegistryEntry)| #[trigger] registry.contains(t) && f(t) == Some(v);
    let j = choose|j: int| 0 <= j < registry.len() && registry[j] == t;
    assert(registry_names(registry)[j] == t.0@);
}

} // verus!

verus! {

/// Extension `e` lists the grammar id `id`.
pub open spec fn lists_id(e: Extension, id: Seq<char>) -> bool {
    views(e.grammars@).contains(id)
}

/// Some grammar of `grammars` has the id `id`.
pub open spec fn has_record(grammars: Seq<Grammar>, id: Seq<char>) -> bool {
    exists|k: int| 0 <= k < grammars.len() && #[trigger] grammars[k].id@ == id
}

/// Every grammar id that an extension lists has a grammar record.
pub open spec fn records_complete(exts: Seq<Extension>, grammars: Seq<Grammar>) -> bool {
    forall|i: int, id: Seq<char>|
        0 <= i < exts.len() && #[trigger] lists_id(exts[i], id) ==> has_record(grammars, id)
}

/// No grammar id is listed by two extensions (at two places) of `exts`.
pub open spec fn ids_disjoint(exts: Seq<Extension>) -> bool {
    forall|i: int, j: int, id: Seq<char>|
        0 <= i < exts.len() && 0 <= j < exts.len() && i != j && #[trigger] lists_id(exts[i], id)
            ==> !#[trigger] lists_id(exts[j], id)
}

proof fn lemma_filter_member<A>(s: Seq<A>, p: spec_fn(A) -> bool, i: int) -> (j: int)
    requires
        0 <= i < s.filter(p).len(),
    ensures
        0 <= j < s.len(),
        s[j] == s.filter(p)[i],
        p(s[j]),
{
    let x = s.filter(p)[i];
    s.lemma_filter_pred(p, i);
    assert(s.filter(p).contains(x));
    s.lemma_filter_contains_rev(p, x);
    choose|j: int| 0 <= j < s.len() && s[j] == x
}

proof fn lemma_record_kept(grammars: Seq<Grammar>, p: spec_fn(Grammar) -> bool, id: Seq<char>)
    requires
        has_record(grammars, id),
        forall|k: int| 0 <= k < grammars.len() && grammars[k].id@ == id ==> p(#[trigger] grammars[k]),
    ensures
        has_record(grammars.filter(p), id),
{
    let k = choose|k: int| 0 <= k < grammars.len() && #[trigger] grammars[k].id@ == id;
    grammars.lemma_filter_contains(p, k);
    let f = grammars.filter(p);
    let m = choose|m: int| 0 <= m < f.len() && f[m] == grammars[k];
    assert(f[m].id@ == id);
}

/// Dropping the unmaintained extensions keeps a grammar record for every
/// grammar id a remaining extension lists, where no grammar id belongs to
/// two extensions.
pub proof fn lemma_remove_keeps_records(
    exts: Seq<Extension>,
    grammars: Seq<Grammar>,
    registry: Seq<(String, RegistryEntry)>,
)
    requires
        records_complete(exts, grammars),
        ids_disjoint(exts),
    ensures
        records_complete(
            exts.filter(|e: Extension| maintained(registry, e)),
            grammars.filter(|g: Grammar| !dropped_id(exts, registry, g.id@)),
        ),
{
    let pe = |e: Extension| maintained(registry, e);
    let pg = |g: Grammar| !dropped_id(exts, registry, g.id@);
    let exts1 = exts.filter(pe);
    assert forall|i: int, id: Seq<char>|
        0 <= i < exts1.len() && #[trigger] lists_id(exts1[i], id) implies has_record(
        grammars.filter(pg),
        id,
    ) by {
        let p = lemma_filter_member(exts, pe, i);
        assert(lists_id(exts[p], id));
        assert forall|k: int| 0 <= k < grammars.len() && grammars[k].id@ == id implies pg(
            #[trigger] grammars[k],
        ) by {
            if dropped_id(exts, registry, id) {
                let q = choose|q: int|
                    #![trigger exts[q]]
                    first_named(exts, exts[q].name@, q) && !maintained(registry, exts[q])
                        && views(exts[q].grammars@).contains(id);
                assert(lists_id(exts[q], id));
                assert(q != p);
            }
        }
        lemma_record_kept(grammars, pg, id);
    }
}

/// Folding in a processed extension keeps a grammar record for every
/// grammar id an extension lists, where the new extension's grammars hold
/// a record for each id it lists and no grammar id belongs to two of the
/// old extensions.
pub proof fn lemma_apply_keeps_records(
    exts: Seq<Extension>,
    grammars: Seq<Grammar>,
    extension: Extension,
    new_grammars: Seq<Grammar>,
)
    requires
        records_complete(exts, grammars),
        ids_disjoint(exts),
        records_complete(seq![extension], new_grammars),
    ensures
        records_complete(
            apply_step(exts, grammars, extension, new_grammars).0,
            apply_step(exts, grammars, extension, new_grammars).1,
        ),
{
    let name = extension.name@;
    let kept = if named(exts, name) {
        grammars.filter(not_outdated(exts, name))
    } else {
        grammars
    };
    let rest = without_name(exts, name);
    let all = rest.push(extension);
    assert forall|i: int, id: Seq<char>| 0 <= i < all.len() && #[trigger] lists_id(all[i], id) implies has_record(
        kept + new_grammars,
        id,
    ) by {
        if i == rest.len() {
            assert(all[i] == extension);
            assert(seq![extension][0] == extension);
            assert(lists_id(seq![extension][0], id));
            let k = choose|k: int| 0 <= k < new_grammars.len() && #[trigger] new_grammars[k].id@ == id;
            assert((kept + new_grammars)[kept.len() + k] == new_grammars[k]);
        } else {
            assert(all[i] == rest[i]);
            let p = lemma_filter_member(exts, not_named(name), i);
            assert(lists_id(exts[p], id));
            if named(exts, name) {
                let f = choose|f: int| first_named(exts, name, f);
                assert(first_named(exts, name, f)) by {
                    let w = choose|w: int| 0 <= w < exts.len() && #[trigger] exts[w].name@ == name;
                    lemma_first_exists(exts, name, w);
                }
                assert(p != f);
                let pg = not_outdated(exts, name);
                assert(outdated_ids(exts, name) == views(exts[f].grammars@));
                assert(!lists_id(exts[f], id));
                assert forall|k: int| 0 <= k < grammars.len() && grammars[k].id@ == id implies pg(
                    #[trigger] grammars[k],
                ) by {}
                lemma_record_kept(grammars, pg, id);
            }
            let k = choose|k: int| 0 <= k < kept.len() && #[trigger] kept[k].id@ == id;
            assert((kept + new_grammars)[k] == kept[k]);
        }
    }
}

proof fn lemma_first_exists(exts: Seq<Extension>, name: Seq<char>, w: int)
    requires
        0 <= w < exts.len(),
        exts[w].name@ == name,
    ensures
        exists|f: int| first_named(exts, name, f),
    decreases w,
{
    if exists|j: int| 0 <= j < w && #[trigger] exts[j].name@ == name {
        let j = choose|j: int| 0 <= j < w && #[trigger] exts[j].name@ == name;
        lemma_first_exists(exts, name, j);
    } else {
        assert(first_named(exts, name, w));
    }
}

} // verus!

verus! {

/// Keeping part of the extensions keeps their grammar ids disjoint.
pub proof fn lemma_filter_keeps_disjoint(exts: Seq<Extension>, p: spec_fn(Extension) -> bool)
    requires
        ids_disjoint(exts),
    ensures
        ids_disjoint(exts.filter(p)),
    decreases exts.len(),
{
    reveal(Seq::filter);
    if exts.len() > 0 {
        let r = exts.drop_last();
        assert(ids_disjoint(r)) by {
            assert forall|i: int, j: int, id: Seq<char>|
                0 <= i < r.len() && 0 <= j < r.len() && i != j && #[trigger] lists_id(r[i], id)
                    implies !#[trigger] lists_id(r[j], id) by {
                assert(r[i] == exts[i]);
                assert(r[j] == exts[j]);
            }
        }
        lemma_filter_keeps_disjoint(r, p);
        if p(exts.last()) {
            let f = r.filter(p);
            let g = f.push(exts.last());
            assert forall|i: int, j: int, id: Seq<char>|
                0 <= i < g.len() && 0 <= j < g.len() && i != j && #[trigger] lists_id(g[i], id)
                    implies !#[trigger] lists_id(g[j], id) by {
                if i < f.len() && j < f.len() {
                    assert(g[i] == f[i]);
                    assert(g[j] == f[j]);
                } else {
                    let (a, b) = if i < f.len() { (i, j) } else { (j, i) };
                    assert(g[a] == f[a]);
                    let q = lemma_filter_member(r, p, a);
                    assert(r[q] == exts[q]);
                    assert(g[b] == exts[exts.len() - 1]);
                    if lists_id(g[a], id) && lists_id(g[b], id) {
                        assert(lists_id(exts[q], id));
                        assert(lists_id(exts[exts.len() - 1], id));
                    }
                }
            }
        }
    }
}

/// Folding in a processed extension keeps grammar ids disjoint, where no
/// grammar id of the new extension is listed by an old extension of
/// another name.
pub proof fn lemma_apply_keeps_disjoint(exts: Seq<Extension>, extension: Extension)
    requires
        ids_disjoint(exts),
        forall|i: int, id: Seq<char>|
            0 <= i < exts.len() && exts[i].name@ != extension.name@ && #[trigger] lists_id(
                exts[i],
                id,
            ) ==> !lists_id(extension, id),
    ensures
        ids_disjoint(without_name(exts, extension.name@).push(extension)),
{
    let p = not_named(extension.name@);
    let f = exts.filter(p);
    lemma_filter_keeps_disjoint(exts, p);
    let g = f.push(extension);
    assert forall|i: int, j: int, id: Seq<char>|
        0 <= i < g.len() && 0 <= j < g.len() && i != j && #[trigger] lists_id(g[i], id)
            implies !#[trigger] lists_id(g[j], id) by {
        if i < f.len() && j < f.len() {
            assert(g[i] == f[i]);
            assert(g[j] == f[j]);
        } else {
            let (a, b) = if i < f.len() { (i, j) } else { (j, i) };
            assert(g[a] == f[a]);
            assert(g[b] == extension);
            let q = lemma_filter_member(exts, p, a);
            if lists_id(g[a], id) {
                assert(lists_id(exts[q], id));
            }
        }
    }
}

/// Ordering the catalogue keeps a grammar record for every grammar id an
/// extension lists.
pub proof fn lemma_sort_keeps_records(
    exts: Seq<Extension>,
    grammars: Seq<Grammar>,
    sorted_exts: Seq<Extension>,
    sorted_grammars: Seq<Grammar>,
)
    requires
        records_complete(exts, grammars),
        same_runs(sorted_exts, exts),
        same_runs(sorted_grammars, grammars),
    ensures
        records_complete(sorted_exts, sorted_grammars),
{
    assert(same_runs(grammars, sorted_grammars)) by {
        assert forall|k: Seq<char>| #[trigger] grammars.filter(crate::order::has_key::<Grammar>(k))
            == sorted_grammars.filter(crate::order::has_key::<Grammar>(k)) by {
            assert(sorted_grammars.filter(crate::order::has_key::<Grammar>(k)) == grammars.filter(
                crate::order::has_key::<Grammar>(k),
            ));
        }
    }
    assert forall|i: int, id: Seq<char>|
        0 <= i < sorted_exts.len() && #[trigger] lists_id(sorted_exts[i], id) implies has_record(
        sorted_grammars,
        id,
    ) by {
        crate::order::lemma_same_runs_contains(sorted_exts, exts, i);
        let p = choose|p: int| 0 <= p < exts.len() && exts[p] == sorted_exts[i];
        assert(lists_id(exts[p], id));
        let k = choose|k: int| 0 <= k < grammars.len() && #[trigger] grammars[k].id@ == id;
        crate::order::lemma_same_runs_contains(grammars, sorted_grammars, k);
        let m = choose|m: int| 0 <= m < sorted_grammars.len() && sorted_grammars[m] == grammars[k];
        assert(sorted_grammars[m].id@ == id);
    }
}

} // verus!

verus! {

/// Merging keeps the registry's order: where the registry's names are
/// distinct and in order, so are the names of the merged extensions.
pub proof fn lemma_merge_keeps_order(
    registry: Seq<(String, RegistryEntry)>,
    repositories: Seq<(Seq<char>, Seq<char>)>,
    revisions: Seq<(Seq<char>, Seq<char>)>,
)
    requires
        strictly_ordered(registry_names(registry)),
    ensures
        strictly_ordered(
            crate::registry::merged(registry, repositories, revisions).map_values(
                |v: crate::registry::RegistryExtensionView| v.name,
            ),
        ),
    decreases registry.len(),
{
    let m = crate::registry::merged(registry, repositories, revisions);
    let nm = m.map_values(|v: crate::registry::RegistryExtensionView| v.name);
    if registry.len() > 0 {
        let r = registry.drop_last();
        assert(strictly_ordered(registry_names(r))) by {
            assert forall|i: int, j: int| 0 <= i < j < registry_names(r).len() implies lex_le(
                #[trigger] registry_names(r)[i],
                #[trigger] registry_names(r)[j],
            ) && registry_names(r)[i] != registry_names(r)[j] by {
                assert(registry_names(r)[i] == registry_names(registry)[i]);
                assert(registry_names(r)[j] == registry_names(registry)[j]);
            }
        }
        lemma_merge_keeps_order(r, repositories, revisions);
        let mr = crate::registry::merged(r, repositories, revisions);
        let f = |p: (String, RegistryEntry)|
            crate::registry::merge_one(p.0@, p.1, repositories, revisions);
        assert(m == r.filter_map(f) + (match f(registry.last()) {
            Some(s) => seq![s],
            None => Seq::empty(),
        }));
        if let Some(v) = f(registry.last()) {
            let last = registry.len() - 1;
            assert(v.name == registry_names(registry)[last]);
            assert forall|i: int, j: int| 0 <= i < j < nm.len() implies lex_le(
                #[trigger] nm[i],
                #[trigger] nm[j],
            ) && nm[i] != nm[j] by {
                let nmr = mr.map_values(|v: crate::registry::RegistryExtensionView| v.name);
                assert(m[i] == mr[i]);
                assert(nm[i] == m[i].name);
                assert(nm[j] == m[j].name);
                assert(nmr[i] == mr[i].name);
                if j < mr.len() {
                    assert(m[j] == mr[j]);
                    assert(nmr[j] == mr[j].name);
                } else {
                    assert(m[j] == v);
                    lemma_merged_names_in_registry(r, repositories, revisions, i);
                    let q = choose|q: int| 0 <= q < registry_names(r).len() && registry_names(r)[q] == mr[i].name;
                    assert(registry_names(r)[q] == registry_names(registry)[q]);
                    assert(q < last);
                }
            }
        } else {
            assert(m == mr);
        }
    }
}

} // verus!

verus! {

/// The catalogue after folding in each processed extension of `results`,
/// with its grammars, in order.
pub open spec fn apply_steps(
    exts: Seq<Extension>,
    grammars: Seq<Grammar>,
    results: Seq<(Extension, Vec<Grammar>)>,
) -> (Seq<Extension>, Seq<Grammar>)
    decreases results.len(),
{
    if results.len() == 0 {
        (exts, grammars)
    } else {
        let prev = apply_steps(exts, grammars, results.drop_last());
        apply_step(prev.0, prev.1, results.last().0, results.last().1@)
    }
}

/// Folds each processed extension of `results`, with its grammars, into
/// the catalogue, in order.
pub fn apply_all(output: &mut NixExtensions, results: Vec<(Extension, Vec<Grammar>)>)
    ensures
        (final(output).extensions@, final(output).grammars@) == apply_steps(
            old(output).extensions@,
            old(output).grammars@,
            results@,
        ),
{
    let ghost e0 = output.extensions@;
    let ghost g0 = output.grammars@;
    let ghost rs = results@;
    assert(rs.take(0) =~= Seq::<(Extension, Vec<Grammar>)>::empty());
    for r in it: results.into_iter()
        invariant
            it.seq() == rs,
            (output.extensions@, output.grammars@) == apply_steps(e0, g0, rs.take(it.index() as int)),
    {
        assert(rs.take(it.index() + 1).drop_last() =~= rs.take(it.index() as int));
        assert(rs.take(it.index() + 1).last() == r);
        let (extension, grammars) = r;
        apply_processed(output, extension, grammars);
    }
    assert(rs.take(rs.len() as int) =~= rs);
}

/// The processed extensions of `results`.
pub open spec fn result_exts(results: Seq<(Extension, Vec<Grammar>)>) -> Seq<Extension> {
    results.map_values(|r: (Extension, Vec<Grammar>)| r.0)
}

/// No grammar id is listed by two extensions of different names.
pub open spec fn names_apart(all: Seq<Extension>) -> bool {
    forall|i: int, j: int, id: Seq<char>|
        0 <= i < all.len() && 0 <= j < all.len() && all[i].name@ != all[j].name@
            && #[trigger] lists_id(all[i], id) ==> !#[trigger] lists_id(all[j], id)
}

/// Each processed extension comes with a record for every grammar id it
/// lists.
pub open spec fn results_backed(results: Seq<(Extension, Vec<Grammar>)>) -> bool {
    forall|k: int| 0 <= k < results.len() ==> records_complete(seq![#[trigger] results[k].0], results[k].1@)
}

/// `names_apart` holds of every part of a sequence it holds of.
proof fn lemma_names_apart_sub(all: Seq<Extension>, sub: Seq<Extension>)
    requires
        names_apart(all),
        forall|i: int| 0 <= i < sub.len() ==> all.contains(#[trigger] sub[i]),
    ensures
        names_apart(sub),
{
    assert forall|i: int, j: int, id: Seq<char>|
        0 <= i < sub.len() && 0 <= j < sub.len() && sub[i].name@ != sub[j].name@
            && #[trigger] lists_id(sub[i], id) implies !#[trigger] lists_id(sub[j], id) by {
        assert(all.contains(sub[i]));
        assert(all.contains(sub[j]));
        let p = choose|p: int| 0 <= p < all.len() && all[p] == sub[i];
        let q = choose|q: int| 0 <= q < all.len() && all[q] == sub[j];
        assert(lists_id(all[p], id));
    }
}

/// Folding in processed extensions one after another keeps a grammar
/// record for every grammar id an extension lists, and keeps grammar ids
/// disjoint, where each processed extension comes with the records of its
/// grammars and no grammar id belongs to two extensions (old or processed)
/// of different names.
pub proof fn lemma_apply_steps_keep_records(
    exts: Seq<Extension>,
    grammars: Seq<Grammar>,
    results: Seq<(Extension, Vec<Grammar>)>,
)
    requires
        records_complete(exts, grammars),
        ids_disjoint(exts),
        names_apart(exts + result_exts(results)),
        results_backed(results),
    ensures
        records_complete(apply_steps(exts, grammars, results).0, apply_steps(exts, grammars, results).1),
        ids_disjoint(apply_steps(exts, grammars, results).0),
        forall|i: int|
            0 <= i < apply_steps(exts, grammars, results).0.len() ==> (exts + result_exts(
                results,
            )).contains(#[trigger] apply_steps(exts, grammars, results).0[i]),
    decreases results.len(),
{
    let all = exts + result_exts(results);
    if results.len() == 0 {
        assert forall|i: int| 0 <= i < exts.len() implies all.contains(#[trigger] exts[i]) by {
            assert(all[i] == exts[i]);
        }
    } else {
        let r = results.drop_last();
        let all_r = exts + result_exts(r);
        assert forall|i: int| 0 <= i < all_r.len() implies all.contains(#[trigger] all_r[i]) by {
            assert(all[i] == all_r[i]);
        }
        lemma_names_apart_sub(all, all_r);
        assert(results_backed(r)) by {
            assert forall|k: int| 0 <= k < r.len() implies records_complete(
                seq![#[trigger] r[k].0],
                r[k].1@,
            ) by {
                assert(r[k] == results[k]);
            }
        }
        lemma_apply_steps_keep_records(exts, grammars, r);
        let prev = apply_steps(exts, grammars, r);
        let e = results.last().0;
        let ng = results.last().1@;
        let last = all.len() - 1;
        assert(all[last] == e);
        assert(records_complete(seq![e], ng)) by {
            assert(results[results.len() - 1].0 == e);
        }
        lemma_apply_keeps_records(prev.0, prev.1, e, ng);
        assert forall|i: int, id: Seq<char>|
            0 <= i < prev.0.len() && prev.0[i].name@ != e.name@ && #[trigger] lists_id(
                prev.0[i],
                id,
            ) implies !lists_id(e, id) by {
            assert(all_r.contains(prev.0[i]));
            let p = choose|p: int| 0 <= p < all_r.len() && all_r[p] == prev.0[i];
            assert(all[p] == all_r[p]);
            assert(lists_id(all[p], id));
        }
        lemma_apply_keeps_disjoint(prev.0, e);
        let next = apply_step(prev.0, prev.1, e, ng);
        assert forall|i: int| 0 <= i < next.0.len() implies all.contains(#[trigger] next.0[i]) by {
            let f = without_name(prev.0, e.name@);
            if i < f.len() {
                assert(next.0[i] == f[i]);
                let q = lemma_filter_member(prev.0, not_named(e.name@), i);
                assert(all_r.contains(prev.0[q]));
                let p = choose|p: int| 0 <= p < all_r.len() && all_r[p] == prev.0[q];
                assert(all[p] == all_r[p]);
            } else {
                assert(next.0[i] == e);
            }
        }
    }
}

/// A whole sync keeps a grammar record for every grammar id an extension
/// lists: dropping the unmaintained extensions, folding in the processed
/// ones in order, and ordering the result, where before the sync each
/// listed id had a record, no grammar id belonged to two extensions, each
/// processed extension comes with the records of its grammars, and no
/// grammar id belongs to two extensions (old or processed) of different
/// names.
pub proof fn lemma_sync_keeps_records(
    exts: Seq<Extension>,
    grammars: Seq<Grammar>,
    registry: Seq<(String, RegistryEntry)>,
    results: Seq<(Extension, Vec<Grammar>)>,
    sorted_exts: Seq<Extension>,
    sorted_grammars: Seq<Grammar>,
)
    requires
        records_complete(exts, grammars),
        ids_disjoint(exts),
        names_apart(exts + result_exts(results)),
        results_backed(results),
        ({
            let applied = apply_steps(
                exts.filter(|e: Extension| maintained(registry, e)),
                grammars.filter(|g: Grammar| !dropped_id(exts, registry, g.id@)),
                results,
            );
            same_runs(sorted_exts, applied.0) && same_runs(sorted_grammars, applied.1)
        }),
    ensures
        records_complete(sorted_exts, sorted_grammars),
{
    let pe = |e: Extension| maintained(registry, e);
    let exts1 = exts.filter(pe);
    let grammars1 = grammars.filter(|g: Grammar| !dropped_id(exts, registry, g.id@));
    lemma_remove_keeps_records(exts, grammars, registry);
    lemma_filter_keeps_disjoint(exts, pe);
    let all = exts + result_exts(results);
    let all1 = exts1 + result_exts(results);
    assert forall|i: int| 0 <= i < all1.len() implies all.contains(#[trigger] all1[i]) by {
        if i < exts1.len() {
            let q = lemma_filter_member(exts, pe, i);
            assert(all1[i] == exts[q]);
            assert(all[q] == exts[q]);
        } else {
            assert(all1[i] == all[i - exts1.len() + exts.len()]);
        }
    }
    lemma_names_apart_sub(all, all1);
    lemma_apply_steps_keep_records(exts1, grammars1, results);
    let applied = apply_steps(exts1, grammars1, results);
    lemma_sort_keeps_records(applied.0, applied.1, sorted_exts, sorted_grammars);
}

} // verus!

verus! {

/// The rule for choosing what to process: a registry extension the
/// catalogue lacks is processed; one whose version differs in any way from
/// that of the first catalogued extension of its name is processed; one at
/// the same version is skipped.
pub proof fn lemma_needs_sync_rule(exts: Seq<Extension>, c: RegistryExtension, i: int)
    ensures
        (forall|j: int| 0 <= j < exts.len() ==> #[trigger] exts[j].name@ != c.name@) ==> needs_sync(
            exts,
            c,
        ),
        first_named(exts, c.name@, i) && exts[i].version@ != c.version@ ==> needs_sync(exts, c),
        first_named(exts, c.name@, i) && exts[i].version@ == c.version@ ==> !needs_sync(exts, c),
{
    if first_named(exts, c.name@, i) {
        assert(named(exts, c.name@));
        assert forall|k: int| #![trigger exts[k]] first_named(exts, c.name@, k) implies k == i by {
            if k < i {
                assert(exts[k].name@ != c.name@);
            }
            if k > i {
                assert(exts[i].name@ != c.name@);
            }
        }
    }
}


/// Folding in a processed extension `e` with its grammars: the extensions
/// become the old ones of other names, all of them, followed by `e`; the
/// grammars become the old ones that the first old extension of e's name
/// (where there is one) does not list, all of them, followed by `e`'s new
/// grammars.
pub proof fn lemma_apply_step_law(
    exts: Seq<Extension>,
    grammars: Seq<Grammar>,
    e: Extension,
    new_grammars: Seq<Grammar>,
    i: int,
)
    ensures
        ({
            let r = apply_step(exts, grammars, e, new_grammars);
            let kept = r.1.take(r.1.len() - new_grammars.len());
            &&& r.0.len() >= 1 && r.0.last() == e
            &&& forall|k: int|
                0 <= k < r.0.len() - 1 ==> exts.contains(#[trigger] r.0[k]) && r.0[k].name@
                    != e.name@
            &&& forall|k: int|
                0 <= k < exts.len() && #[trigger] exts[k].name@ != e.name@ ==> r.0.contains(
                    exts[k],
                )
            &&& r.1.len() >= new_grammars.len()
            &&& r.1.skip(r.1.len() - new_grammars.len()) == new_grammars
            &&& !named(exts, e.name@) ==> r.1 == grammars + new_grammars
            &&& first_named(exts, e.name@, i) ==> (forall|k: int|
                0 <= k < kept.len() ==> grammars.contains(#[trigger] kept[k]) && !views(
                    exts[i].grammars@,
                ).contains(kept[k].id@))
            &&& first_named(exts, e.name@, i) ==> (forall|k: int|
                0 <= k < grammars.len() && !views(exts[i].grammars@).contains(
                    #[trigger] grammars[k].id@,
                ) ==> kept.contains(grammars[k]))
        }),
{
    let r = apply_step(exts, grammars, e, new_grammars);
    let pn = not_named(e.name@);
    let f = exts.filter(pn);
    exts.filter_lemma(pn);
    assert(r.0 == f.push(e));
    assert forall|k: int| 0 <= k < r.0.len() - 1 implies exts.contains(#[trigger] r.0[k])
        && r.0[k].name@ != e.name@ by {
        assert(r.0[k] == f[k]);
        let j = lemma_filter_member(exts, pn, k);
        assert(exts[j] == r.0[k]);
    }
    assert forall|k: int| 0 <= k < exts.len() && #[trigger] exts[k].name@ != e.name@ implies r.0.contains(
        exts[k],
    ) by {
        assert(pn(exts[k]));
        assert(f.contains(exts[k]));
        let j = choose|j: int| 0 <= j < f.len() && f[j] == exts[k];
        assert(r.0[j] == exts[k]);
    }
    let old_part = if named(exts, e.name@) {
        grammars.filter(not_outdated(exts, e.name@))
    } else {
        grammars
    };
    assert(r.1 == old_part + new_grammars);
    assert(r.1.skip(r.1.len() - new_grammars.len()) =~= new_grammars);
    let kept = r.1.take(r.1.len() - new_grammars.len());
    assert(kept =~= old_part);
    if first_named(exts, e.name@, i) {
        assert(named(exts, e.name@));
        assert forall|k: int| #![trigger exts[k]] first_named(exts, e.name@, k) implies k == i by {
            if k < i {
                assert(exts[k].name@ != e.name@);
            }
            if i < k {
                assert(exts[i].name@ != e.name@);
            }
        }
        assert(outdated_ids(exts, e.name@) == views(exts[i].grammars@));
        let pg = not_outdated(exts, e.name@);
        grammars.filter_lemma(pg);
        assert forall|k: int| 0 <= k < kept.len() implies grammars.contains(#[trigger] kept[k])
            && !views(exts[i].grammars@).contains(kept[k].id@) by {
            let j = lemma_filter_member(grammars, pg, k);
            assert(grammars[j] == kept[k]);
        }
        assert forall|k: int|
            0 <= k < grammars.len() && !views(exts[i].grammars@).contains(
                #[trigger] grammars[k].id@,
            ) implies kept.contains(grammars[k]) by {
            assert(pg(grammars[k]));
        }
    }
}


/// Dropping the unmaintained extensions keeps exactly the extensions whose
/// name some registry entry has, and the grammars except those listed by
/// the first extension of a name that no registry entry has.
pub proof fn lemma_remove_unmaintained_law(
    exts: Seq<Extension>,
    grammars: Seq<Grammar>,
    registry: Seq<(String, RegistryEntry)>,
)
    ensures
        ({
            let exts1 = exts.filter(|e: Extension| maintained(registry, e));
            let grammars1 = grammars.filter(|g: Grammar| !dropped_id(exts, registry, g.id@));
            &&& forall|k: int|
                0 <= k < exts.len() && (exists|j: int|
                    0 <= j < registry.len() && #[trigger] registry[j].0@ == exts[k].name@)
                    ==> exts1.contains(#[trigger] exts[k])
            &&& forall|k: int|
                0 <= k < exts1.len() ==> exts.contains(#[trigger] exts1[k]) && exists|j: int|
                    0 <= j < registry.len() && #[trigger] registry[j].0@ == exts1[k].name@
            &&& forall|k: int|
                0 <= k < grammars1.len() ==> grammars.contains(#[trigger] grammars1[k]) && forall|
                    i: int,
                |
                    #![trigger exts[i]]
                    first_named(exts, exts[i].name@, i) && (forall|j: int|
                        0 <= j < registry.len() ==> #[trigger] registry[j].0@ != exts[i].name@)
                        ==> !views(exts[i].grammars@).contains(grammars1[k].id@)
            &&& forall|k: int|
                0 <= k < grammars.len() && (forall|i: int|
                    #![trigger exts[i]]
                    0 <= i < exts.len() && (forall|j: int|
                        0 <= j < registry.len() ==> #[trigger] registry[j].0@ != exts[i].name@)
                        ==> !views(exts[i].grammars@).contains(grammars[k].id@)) ==> grammars1.contains(
                    #[trigger] grammars[k],
                )
        }),
{
    let pe = |e: Extension| maintained(registry, e);
    let pg = |g: Grammar| !dropped_id(exts, registry, g.id@);
    let exts1 = exts.filter(pe);
    let grammars1 = grammars.filter(pg);
    let names = registry_names(registry);
    exts.filter_lemma(pe);
    grammars.filter_lemma(pg);
    assert forall|nm: Seq<char>|
        names.contains(nm) <==> exists|j: int|
            0 <= j < registry.len() && #[trigger] registry[j].0@ == nm by {
        if names.contains(nm) {
            let j = choose|j: int| 0 <= j < names.len() && names[j] == nm;
            assert(registry[j].0@ == nm);
        }
        if exists|j: int| 0 <= j < registry.len() && #[trigger] registry[j].0@ == nm {
            let j = choose|j: int| 0 <= j < registry.len() && #[trigger] registry[j].0@ == nm;
            assert(names[j] == nm);
        }
    }
    assert forall|k: int|
        0 <= k < exts.len() && (exists|j: int|
            0 <= j < registry.len() && #[trigger] registry[j].0@ == exts[k].name@)
            implies exts1.contains(#[trigger] exts[k]) by {
        assert(pe(exts[k]));
    }
    assert forall|k: int| 0 <= k < exts1.len() implies exts.contains(#[trigger] exts1[k])
        && exists|j: int| 0 <= j < registry.len() && #[trigger] registry[j].0@ == exts1[k].name@ by {
        let j = lemma_filter_member(exts, pe, k);
        assert(exts[j] == exts1[k]);
        assert(pe(exts1[k]));
    }
    assert forall|k: int| 0 <= k < grammars1.len() implies grammars.contains(#[trigger] grammars1[k])
        && forall|i: int|
        #![trigger exts[i]]
        first_named(exts, exts[i].name@, i) && (forall|j: int|
            0 <= j < registry.len() ==> #[trigger] registry[j].0@ != exts[i].name@)
            ==> !views(exts[i].grammars@).contains(grammars1[k].id@) by {
        let m = lemma_filter_member(grammars, pg, k);
        assert(grammars[m] == grammars1[k]);
        assert(pg(grammars1[k]));
        assert forall|i: int|
            #![trigger exts[i]]
            first_named(exts, exts[i].name@, i) && (forall|j: int|
                0 <= j < registry.len() ==> #[trigger] registry[j].0@ != exts[i].name@)
                implies !views(exts[i].grammars@).contains(grammars1[k].id@) by {
            assert(!names.contains(exts[i].name@));
            assert(!maintained(registry, exts[i]));
        }
    }
    assert forall|k: int|
        0 <= k < grammars.len() && (forall|i: int|
            #![trigger exts[i]]
            0 <= i < exts.len() && (forall|j: int|
                0 <= j < registry.len() ==> #[trigger] registry[j].0@ != exts[i].name@)
                ==> !views(exts[i].grammars@).contains(grammars[k].id@)) implies grammars1.contains(
        #[trigger] grammars[k],
    ) by {
        if dropped_id(exts, registry, grammars[k].id@) {
            let i = choose|i: int|
                #![trigger exts[i]]
                first_named(exts, exts[i].name@, i) && !maintained(registry, exts[i]) && views(
                    exts[i].grammars@,
                ).contains(grammars[k].id@);
            assert(!names.contains(exts[i].name@));
            assert(forall|j: int| 0 <= j < registry.len() ==> #[trigger] registry[j].0@ != exts[i].name@);
        }
        assert(pg(grammars[k]));
    }
}

} // verus!
