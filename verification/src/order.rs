//! Stable sorting of catalogue records by their string key.

use vstd::prelude::*;

use crate::output::{Extension, Grammar};
use crate::text::{
    lemma_lex_le_refl, lemma_lex_le_total, lemma_lex_le_trans, lex_le, str_le,
};

verus! {

broadcast use vstd::seq_lib::group_seq_properties;

/// A record ordered by a string key: extensions by name, grammars by id.
pub trait Keyed: Sized {
    /// The characters of the key.
    spec fn key(&self) -> Seq<char>;

    /// The key itself.
    fn key_str(&self) -> (k: &str)
        ensures
            k@ == self.key(),
    ;
}

impl Keyed for Extension {
    open spec fn key(&self) -> Seq<char> {
        self.name@
    }

    fn key_str(&self) -> (k: &str) {
        self.name.as_str()
    }
}

impl Keyed for Grammar {
    open spec fn key(&self) -> Seq<char> {
        self.id@
    }

    fn key_str(&self) -> (k: &str) {
        self.id.as_str()
    }
}

/// Keys never decrease along `s`.
pub open spec fn sorted_by_key<T: Keyed>(s: Seq<T>) -> bool {
    forall|i: int, j: int| 0 <= i < j < s.len() ==> lex_le(#[trigger] s[i].key(), #[trigger] s[j].key())
}

/// The predicate "has key `k`".
pub open spec fn has_key<T: Keyed>(k: Seq<char>) -> spec_fn(T) -> bool {
    |x: T| x.key() == k
}

/// `a` and `b` hold, for every key, the same records with that key in the
/// same order. A stable sort keeps this relation between its input and
/// its output.
pub open spec fn same_runs<T: Keyed>(a: Seq<T>, b: Seq<T>) -> bool {
    forall|k: Seq<char>| #[trigger] a.filter(has_key::<T>(k)) == b.filter(has_key::<T>(k))
}

proof fn lemma_filter_none<T: Keyed>(s: Seq<T>, k: Seq<char>)
    requires
        forall|i: int| 0 <= i < s.len() ==> s[i].key() != k,
    ensures
        s.filter(has_key::<T>(k)) =~= Seq::<T>::empty(),
{
    let p = has_key::<T>(k);
    assert(s.all(|x: T| !p(x))) by {
        assert forall|i: int| 0 <= i < s.len() implies !p(s[i]) by {}
    }
    s.lemma_all_neg_filter_empty(p);
}

/// Sorts `v` by key, keeping records with equal keys in their order: the
/// result is sorted and, key by key, holds the same records in the same
/// order as `v`. No other sequence has both properties (see
/// `lemma_stable_sort_unique`).
pub fn sort_by_key<T: Keyed>(v: Vec<T>) -> (r: Vec<T>)
    ensures
        r@.len() == v@.len(),
        sorted_by_key(r@),
        same_runs(r@, v@),
{
    let ghost orig = v@;
    let mut rest = v;
    let mut out: Vec<T> = Vec::new();
    assert(orig.skip(orig.len() as int) =~= Seq::<T>::empty());
    while rest.len() > 0
        invariant
            rest@ =~= orig.take(rest@.len() as int),
            rest@.len() <= orig.len(),
            out@.len() + rest@.len() == orig.len(),
            sorted_by_key(out@),
            same_runs(out@, orig.skip(rest@.len() as int)),
        decreases rest@.len(),
    {
        let ghost m = rest@.len() as int;
        let x = rest.pop().unwrap();
        assert(x == orig[m - 1]);
        let xk = x.key_str();
        let mut p: usize = 0;
        while p < out.len() && !str_le(xk, out[p].key_str())
            invariant
                p <= out@.len(),
                xk@ == x.key(),
                forall|q: int| 0 <= q < p ==> !lex_le(x.key(), #[trigger] out@[q].key()),
            decreases out@.len() - p,
        {
            p = p + 1;
        }
        let ghost old_out = out@;
        proof {
            assert forall|q: int| p <= q < old_out.len() implies lex_le(x.key(), #[trigger] old_out[q].key()) by {
                if q > p {
                    assert(lex_le(old_out[p as int].key(), old_out[q].key()));
                    lemma_lex_le_trans(x.key(), old_out[p as int].key(), old_out[q].key());
                }
            }
            assert forall|q: int| 0 <= q < p implies lex_le(#[trigger] old_out[q].key(), x.key()) by {
                lemma_lex_le_total(x.key(), old_out[q].key());
            }
        }
        out.insert(p, x);
        proof {
            let new_out = out@;
            assert(new_out =~= old_out.take(p as int) + seq![x] + old_out.skip(p as int));
            assert(old_out =~= old_out.take(p as int) + old_out.skip(p as int));
            assert(orig.skip(m - 1) =~= seq![x] + orig.skip(m));
            assert forall|i: int, j: int| 0 <= i < j < new_out.len() implies lex_le(
                #[trigger] new_out[i].key(),
                #[trigger] new_out[j].key(),
            ) by {
                if j < p {
                } else if j == p {
                    assert(new_out[i] == old_out[i]);
                } else if i < p {
                    assert(new_out[j] == old_out[j - 1]);
                    lemma_lex_le_trans(old_out[i].key(), x.key(), old_out[j - 1].key());
                } else if i == p {
                    assert(new_out[j] == old_out[j - 1]);
                } else {
                    assert(new_out[i] == old_out[i - 1]);
                    assert(new_out[j] == old_out[j - 1]);
                }
            }
            assert forall|k: Seq<char>| #[trigger] new_out.filter(has_key::<T>(k)) == orig.skip(
                m - 1,
            ).filter(has_key::<T>(k)) by {
                let pk = has_key::<T>(k);
                let a = old_out.take(p as int);
                let b = old_out.skip(p as int);
                assert(new_out.filter(pk) == (a + seq![x]).filter(pk) + b.filter(pk));
                assert((a + seq![x]).filter(pk) == a.filter(pk) + seq![x].filter(pk));
                assert(old_out.filter(pk) == a.filter(pk) + b.filter(pk));
                assert(orig.skip(m - 1).filter(pk) == seq![x].filter(pk) + orig.skip(m).filter(pk));
                assert(old_out.filter(pk) == orig.skip(m).filter(pk));
                reveal_with_fuel(Seq::filter, 2);
                if x.key() == k {
                    assert forall|i: int| 0 <= i < a.len() implies a[i].key() != k by {
                        lemma_lex_le_refl(x.key());
                    }
                    lemma_filter_none(a, k);
                    assert(seq![x].filter(pk) =~= seq![x]);
                    assert(new_out.filter(pk) =~= seq![x] + b.filter(pk));
                } else {
                    assert(seq![x].filter(pk) =~= Seq::<T>::empty());
                    assert(new_out.filter(pk) =~= a.filter(pk) + b.filter(pk));
                }
            }
        }
    }
    assert(orig.skip(0) =~= orig);
    out
}

} // verus!

verus! {

/// The first record of `s` has a key no greater than that of any record.
proof fn lemma_first_is_least<T: Keyed>(s: Seq<T>, k: Seq<char>)
    requires
        sorted_by_key(s),
        s.len() > 0,
        s.filter(has_key::<T>(k)).len() > 0,
    ensures
        lex_le(s[0].key(), k),
{
    let p = has_key::<T>(k);
    let x = s.filter(p)[0];
    s.lemma_filter_pred(p, 0);
    s.lemma_filter_contains_rev(p, x);
    let j = choose|j: int| 0 <= j < s.len() && s[j] == x;
    if j == 0 {
        crate::text::lemma_lex_le_refl(k);
    }
}

/// Sorting by key has one possible result: two sequences that are both
/// ordered by key and hold, key by key, the same records in the same
/// order, are equal. In particular sorting a sorted sequence changes
/// nothing.
pub proof fn lemma_stable_sort_unique<T: Keyed>(a: Seq<T>, b: Seq<T>)
    requires
        sorted_by_key(a),
        sorted_by_key(b),
        same_runs(a, b),
    ensures
        a == b,
    decreases a.len(),
{
    reveal_with_fuel(Seq::filter, 1);
    if a.len() == 0 || b.len() == 0 {
        if b.len() > 0 {
            let p = has_key::<T>(b[0].key());
            b.lemma_filter_contains(p, 0);
            assert(a.filter(p) == b.filter(p));
            assert(a.filter(p).len() == 0);
        }
        if a.len() > 0 {
            let p = has_key::<T>(a[0].key());
            a.lemma_filter_contains(p, 0);
            assert(a.filter(p) == b.filter(p));
            assert(b.filter(p).len() == 0);
        }
        assert(a =~= b);
    } else {
        let ka = a[0].key();
        let kb = b[0].key();
        let pa = has_key::<T>(ka);
        let pb = has_key::<T>(kb);
        a.lemma_filter_contains(pa, 0);
        b.lemma_filter_contains(pb, 0);
        assert(a.filter(pa) == b.filter(pa));
        assert(a.filter(pb) == b.filter(pb));
        lemma_first_is_least(a, kb);
        lemma_first_is_least(b, ka);
        crate::text::lemma_lex_le_antisym(ka, kb);
        let ra = a.drop_first();
        let rb = b.drop_first();
        assert(a =~= seq![a[0]] + ra);
        assert(b =~= seq![b[0]] + rb);
        ra.lemma_filter_prepend(a[0], pa);
        rb.lemma_filter_prepend(b[0], pa);
        assert((seq![a[0]] + ra.filter(pa))[0] == a[0]);
        assert((seq![b[0]] + rb.filter(pa))[0] == b[0]);
        assert(a[0] == b[0]);
        assert forall|k: Seq<char>| #[trigger] ra.filter(has_key::<T>(k)) == rb.filter(
            has_key::<T>(k),
        ) by {
            let p = has_key::<T>(k);
            ra.lemma_filter_prepend(a[0], p);
            rb.lemma_filter_prepend(b[0], p);
            assert(a.filter(p) == b.filter(p));
            if k == ka {
                assert(ra.filter(p) =~= a.filter(p).drop_first());
                assert(rb.filter(p) =~= b.filter(p).drop_first());
            } else {
                assert(!p(a[0]));
                assert(Seq::<T>::empty() + ra.filter(p) =~= ra.filter(p));
                assert(Seq::<T>::empty() + rb.filter(p) =~= rb.filter(p));
            }
        }
        assert(sorted_by_key(ra)) by {
            assert forall|i: int, j: int| 0 <= i < j < ra.len() implies lex_le(
                #[trigger] ra[i].key(),
                #[trigger] ra[j].key(),
            ) by {
                assert(ra[i] == a[i + 1]);
                assert(ra[j] == a[j + 1]);
            }
        }
        assert(sorted_by_key(rb)) by {
            assert forall|i: int, j: int| 0 <= i < j < rb.len() implies lex_le(
                #[trigger] rb[i].key(),
                #[trigger] rb[j].key(),
            ) by {
                assert(rb[i] == b[i + 1]);
                assert(rb[j] == b[j + 1]);
            }
        }
        lemma_stable_sort_unique(ra, rb);
    }
}

} // verus!

verus! {

/// Records in the same runs are the same records: each record of `a` is
/// one of `b`.
pub proof fn lemma_same_runs_contains<T: Keyed>(a: Seq<T>, b: Seq<T>, i: int)
    requires
        same_runs(a, b),
        0 <= i < a.len(),
    ensures
        b.contains(a[i]),
{
    let p = has_key::<T>(a[i].key());
    a.lemma_filter_contains(p, i);
    assert(a.filter(p) == b.filter(p));
    b.lemma_filter_contains_rev(p, a[i]);
}

} // verus!
