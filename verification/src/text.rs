//! Character-level text operations used by the synchroniser.
//!
//! Every function here works on the characters of its arguments (their
//! `Seq<char>` views); the spec functions say what each one computes.

use vstd::prelude::*;

verus! {

/// The characters of `s`, in order.
pub fn chars_of(s: &str) -> (v: Vec<char>)
    ensures
        v@ == s@,
{
    let mut v: Vec<char> = Vec::new();
    for c in it: s.chars()
        invariant
            v@ == it.seq().take(it.index() as int),
    {
        v.push(c);
    }
    v
}

/// Lexicographic order on character sequences, comparing characters by
/// their code points. This is the order of `String`'s `Ord`: UTF-8 byte
/// order and code point order agree.
pub open spec fn lex_le(a: Seq<char>, b: Seq<char>) -> bool
    decreases a.len(),
{
    if a.len() == 0 {
        true
    } else if b.len() == 0 {
        false
    } else if a[0] != b[0] {
        (a[0] as int) < (b[0] as int)
    } else {
        lex_le(a.drop_first(), b.drop_first())
    }
}

/// `lex_le` is reflexive.
pub proof fn lemma_lex_le_refl(a: Seq<char>)
    ensures
        lex_le(a, a),
    decreases a.len(),
{
    if a.len() > 0 {
        lemma_lex_le_refl(a.drop_first());
    }
}

/// `lex_le` is total.
pub proof fn lemma_lex_le_total(a: Seq<char>, b: Seq<char>)
    ensures
        lex_le(a, b) || lex_le(b, a),
    decreases a.len(),
{
    if a.len() > 0 && b.len() > 0 && a[0] == b[0] {
        lemma_lex_le_total(a.drop_first(), b.drop_first());
    }
}

/// `lex_le` is transitive.
pub proof fn lemma_lex_le_trans(a: Seq<char>, b: Seq<char>, c: Seq<char>)
    requires
        lex_le(a, b),
        lex_le(b, c),
    ensures
        lex_le(a, c),
    decreases a.len(),
{
    if a.len() > 0 && b.len() > 0 && c.len() > 0 && a[0] == b[0]
        && b[0] == c[0] {
        lemma_lex_le_trans(a.drop_first(), b.drop_first(), c.drop_first());
    }
}

/// `lex_le` is antisymmetric.
pub proof fn lemma_lex_le_antisym(a: Seq<char>, b: Seq<char>)
    requires
        lex_le(a, b),
        lex_le(b, a),
    ensures
        a == b,
    decreases a.len(),
{
    if a.len() == 0 {
        assert(b.len() == 0);
        assert(a =~= b);
    } else {
        assert(b.len() > 0);
        assert(a[0] == b[0]);
        lemma_lex_le_antisym(a.drop_first(), b.drop_first());
        assert(a.drop_first().len() == b.drop_first().len());
        assert(a.len() == b.len());
        assert forall|k: int| 0 <= k < a.len() implies a[k] == b[k] by {
            if k > 0 {
                assert(a[k] == a.drop_first()[k - 1]);
                assert(b[k] == b.drop_first()[k - 1]);
            }
        }
        assert(a =~= b);
    }
}

proof fn lemma_lex_le_from(a: Seq<char>, b: Seq<char>, i: int)
    requires
        0 <= i <= a.len(),
        i <= b.len(),
        a.take(i) =~= b.take(i),
    ensures
        lex_le(a, b) == lex_le(a.skip(i), b.skip(i)),
    decreases i,
{
    if i > 0 {
        assert(a[0] == a.take(i)[0]);
        assert(b[0] == b.take(i)[0]);
        assert(a.drop_first().take(i - 1) =~= b.drop_first().take(i - 1)) by {
            assert forall|k: int| 0 <= k < i - 1 implies a.drop_first()[k] == b.drop_first()[k] by {
                assert(a.take(i)[k + 1] == b.take(i)[k + 1]);
            }
        }
        lemma_lex_le_from(a.drop_first(), b.drop_first(), i - 1);
        assert(a.drop_first().skip(i - 1) =~= a.skip(i));
        assert(b.drop_first().skip(i - 1) =~= b.skip(i));
    } else {
        assert(a.skip(0) =~= a);
        assert(b.skip(0) =~= b);
    }
}

/// Whether `a` comes no later than `b` in `String` order.
pub fn str_le(a: &str, b: &str) -> (r: bool)
    ensures
        r == lex_le(a@, b@),
{
    let av = chars_of(a);
    let bv = chars_of(b);
    let mut i: usize = 0;
    while i < av.len() && i < bv.len()
        invariant
            av@ == a@,
            bv@ == b@,
            i <= av.len(),
            i <= bv.len(),
            av@.take(i as int) =~= bv@.take(i as int),
        decreases av.len() - i,
    {
        let x = av[i];
        let y = bv[i];
        if x != y {
            proof {
                lemma_lex_le_from(a@, b@, i as int);
            }
            return x < y;
        }
        i = i + 1;
        assert(av@.take(i as int) =~= av@.take(i - 1).push(av@[i - 1]));
        assert(bv@.take(i as int) =~= bv@.take(i - 1).push(bv@[i - 1]));
    }
    proof {
        lemma_lex_le_from(a@, b@, i as int);
    }
    i == av.len()
}

} // verus!

verus! {

/// The characters of each string in `v`.
pub open spec fn views(v: Seq<String>) -> Seq<Seq<char>> {
    v.map_values(|x: String| x@)
}

/// The characters of an optional string.
pub open spec fn opt_view(o: Option<String>) -> Option<Seq<char>> {
    match o {
        Some(s) => Some(s@),
        None => None,
    }
}

/// Whether `a` and `b` hold the same characters.
pub fn str_eq(a: &str, b: &str) -> (r: bool)
    ensures
        r == (a@ == b@),
{
    let av = chars_of(a);
    let bv = chars_of(b);
    if av.len() != bv.len() {
        return false;
    }
    let mut i: usize = 0;
    while i < av.len()
        invariant
            av@ == a@,
            bv@ == b@,
            av@.len() == bv@.len(),
            i <= av.len(),
            forall|k: int| 0 <= k < i ==> av@[k] == bv@[k],
        decreases av.len() - i,
    {
        if av[i] != bv[i] {
            return false;
        }
        i = i + 1;
    }
    assert(av@ =~= bv@);
    true
}

/// Whether some string of `list` holds the characters of `s`.
pub fn contains_str(list: &Vec<String>, s: &str) -> (r: bool)
    ensures
        r == views(list@).contains(s@),
{
    let mut i: usize = 0;
    while i < list.len()
        invariant
            i <= list@.len(),
            forall|k: int| 0 <= k < i ==> list@[k]@ != s@,
        decreases list@.len() - i,
    {
        if str_eq(list[i].as_str(), s) {
            assert(views(list@)[i as int] == s@);
            return true;
        }
        i = i + 1;
    }
    assert forall|k: int| 0 <= k < views(list@).len() implies views(list@)[k] != s@ by {
        assert(views(list@)[k] == list@[k]@);
    }
    false
}

/// The string holding the characters of `a` followed by those of `b`.
pub fn concat_str(a: &str, b: &str) -> (r: String)
    ensures
        r@ == a@ + b@,
{
    let mut r = a.to_owned();
    r.append(b);
    r
}

/// The string holding characters `from..to` of `s`.
pub fn substring(s: &str, from: usize, to: usize) -> (r: String)
    requires
        from <= to <= s@.len(),
    ensures
        r@ == s@.subrange(from as int, to as int),
{
    s.substring_char(from, to).to_owned()
}

/// `s` begins with `p`.
pub open spec fn starts_with(s: Seq<char>, p: Seq<char>) -> bool {
    p.len() <= s.len() && s.take(p.len() as int) == p
}

/// `s` ends with `p`.
pub open spec fn ends_with(s: Seq<char>, p: Seq<char>) -> bool {
    p.len() <= s.len() && s.skip(s.len() - p.len()) == p
}

/// `s` without the suffix `p`, if it ends with `p` (`str::strip_suffix`).
pub open spec fn strip_suffix(s: Seq<char>, p: Seq<char>) -> Option<Seq<char>> {
    if ends_with(s, p) {
        Some(s.take(s.len() - p.len()))
    } else {
        None
    }
}

/// `s` with every leading copy of `p` removed (`str::trim_start_matches`).
pub open spec fn trim_start_matches(s: Seq<char>, p: Seq<char>) -> Seq<char>
    decreases s.len(),
{
    if p.len() > 0 && starts_with(s, p) {
        trim_start_matches(s.skip(p.len() as int), p)
    } else {
        s
    }
}

/// `s` with every trailing copy of `p` removed (`str::trim_end_matches`).
pub open spec fn trim_end_matches(s: Seq<char>, p: Seq<char>) -> Seq<char>
    decreases s.len(),
{
    if p.len() > 0 && ends_with(s, p) {
        trim_end_matches(s.take(s.len() - p.len()), p)
    } else {
        s
    }
}

/// Whether characters `at..at + p.len()` of `cs` are those of `p`.
fn matches_at(cs: &Vec<char>, at: usize, p: &Vec<char>) -> (r: bool)
    requires
        at + p@.len() <= cs@.len(),
    ensures
        r == (cs@.subrange(at as int, at + p@.len()) == p@),
{
    let mut k: usize = 0;
    while k < p.len()
        invariant
            k <= p@.len(),
            at + p@.len() <= cs@.len(),
            cs@.len() == cs.len(),
            forall|q: int| 0 <= q < k ==> cs@[at + q] == p@[q],
        decreases p@.len() - k,
    {
        let idx = at + k;
        if cs[idx] != p[k] {
            assert(cs@.subrange(at as int, at + p@.len())[k as int] != p@[k as int]);
            return false;
        }
        k = k + 1;
    }
    assert(cs@.subrange(at as int, at + p@.len()) =~= p@);
    true
}

/// Whether `s` begins with `p`.
pub fn has_prefix(s: &str, p: &str) -> (r: bool)
    ensures
        r == starts_with(s@, p@),
{
    let cs = chars_of(s);
    let ps = chars_of(p);
    if ps.len() > cs.len() {
        return false;
    }
    let r = matches_at(&cs, 0, &ps);
    assert(cs@.subrange(0, ps@.len() as int) =~= cs@.take(ps@.len() as int));
    r
}

/// Whether `s` ends with `p`.
pub fn has_suffix(s: &str, p: &str) -> (r: bool)
    ensures
        r == ends_with(s@, p@),
{
    let cs = chars_of(s);
    let ps = chars_of(p);
    if ps.len() > cs.len() {
        return false;
    }
    let r = matches_at(&cs, cs.len() - ps.len(), &ps);
    assert(cs@.subrange(cs@.len() - ps@.len(), cs@.len() as int) =~= cs@.skip(
        cs@.len() - ps@.len(),
    ));
    r
}

/// `str::strip_suffix`.
pub fn strip_suffix_of(s: &str, p: &str) -> (r: Option<String>)
    ensures
        opt_view(r) == strip_suffix(s@, p@),
{
    if has_suffix(s, p) {
        let n = s.unicode_len();
        let m = p.unicode_len();
        let r = substring(s, 0, n - m);
        assert(r@ =~= s@.take(s@.len() - p@.len()));
        Some(r)
    } else {
        None
    }
}

/// `str::trim_start_matches`.
pub fn trim_start_matches_of(s: &str, p: &str) -> (r: String)
    ensures
        r@ == trim_start_matches(s@, p@),
{
    let cs = chars_of(s);
    let ps = chars_of(p);
    let mut i: usize = 0;
    assert(s@.skip(0) =~= s@);
    if ps.len() > 0 {
        while ps.len() <= cs.len() - i && matches_at(&cs, i, &ps)
            invariant
                cs@ == s@,
                ps@ == p@,
                ps@.len() > 0,
                i <= cs@.len(),
                trim_start_matches(s@, p@) == trim_start_matches(s@.skip(i as int), p@),
            decreases cs@.len() - i,
        {
            assert(s@.skip(i as int).take(p@.len() as int) =~= cs@.subrange(
                i as int,
                i + p@.len(),
            ));
            assert(s@.skip(i as int).skip(p@.len() as int) =~= s@.skip(i + p@.len()));
            i = i + ps.len();
        }
        if ps.len() <= cs.len() - i {
            assert(s@.skip(i as int).take(p@.len() as int) =~= cs@.subrange(
                i as int,
                i + p@.len(),
            ));
        }
    }
    let r = substring(s, i, cs.len());
    assert(r@ =~= s@.skip(i as int));
    r
}

/// `str::trim_end_matches`.
pub fn trim_end_matches_of(s: &str, p: &str) -> (r: String)
    ensures
        r@ == trim_end_matches(s@, p@),
{
    let cs = chars_of(s);
    let ps = chars_of(p);
    let mut j: usize = cs.len();
    assert(s@.take(cs@.len() as int) =~= s@);
    if ps.len() > 0 {
        while ps.len() <= j && matches_at(&cs, j - ps.len(), &ps)
            invariant
                cs@ == s@,
                ps@ == p@,
                ps@.len() > 0,
                j <= cs@.len(),
                trim_end_matches(s@, p@) == trim_end_matches(s@.take(j as int), p@),
            decreases j,
        {
            assert(s@.take(j as int).skip(j - p@.len()) =~= cs@.subrange(j - p@.len(), j as int));
            assert(s@.take(j as int).take(j - p@.len()) =~= s@.take(j - p@.len()));
            j = j - ps.len();
        }
        if ps.len() <= j {
            assert(s@.take(j as int).skip(j - p@.len()) =~= cs@.subrange(j - p@.len(), j as int));
        }
    }
    assert(s@.take(cs@.len() as int) =~= s@);
    let r = substring(s, 0, j);
    assert(r@ =~= s@.take(j as int));
    r
}

} // verus!

verus! {

/// The Unicode `White_Space` property, as `char::is_whitespace` documents it.
pub open spec fn is_white_space(c: char) -> bool {
    ||| ('\u{9}' <= c && c <= '\u{d}')
    ||| c == ' '
    ||| c == '\u{85}'
    ||| c == '\u{a0}'
    ||| c == '\u{1680}'
    ||| ('\u{2000}' <= c && c <= '\u{200a}')
    ||| c == '\u{2028}'
    ||| c == '\u{2029}'
    ||| c == '\u{202f}'
    ||| c == '\u{205f}'
    ||| c == '\u{3000}'
}

/// `char::is_whitespace`.
pub fn is_whitespace(c: char) -> (r: bool)
    ensures
        r == is_white_space(c),
{
    ('\u{9}' <= c && c <= '\u{d}') || c == ' ' || c == '\u{85}' || c == '\u{a0}' || c
        == '\u{1680}' || ('\u{2000}' <= c && c <= '\u{200a}') || c == '\u{2028}' || c
        == '\u{2029}' || c == '\u{202f}' || c == '\u{205f}' || c == '\u{3000}'
}

/// `s` without leading white space.
pub open spec fn trim_start(s: Seq<char>) -> Seq<char>
    decreases s.len(),
{
    if s.len() > 0 && is_white_space(s[0]) {
        trim_start(s.drop_first())
    } else {
        s
    }
}

/// `s` without trailing white space.
pub open spec fn trim_end(s: Seq<char>) -> Seq<char>
    decreases s.len(),
{
    if s.len() > 0 && is_white_space(s.last()) {
        trim_end(s.drop_last())
    } else {
        s
    }
}

/// `s` without leading or trailing white space (`str::trim`).
pub open spec fn trim(s: Seq<char>) -> Seq<char> {
    trim_end(trim_start(s))
}

/// `str::trim`.
pub fn trim_of(s: &str) -> (r: String)
    ensures
        r@ == trim(s@),
{
    let cs = chars_of(s);
    let mut i: usize = 0;
    assert(s@.skip(0) =~= s@);
    while i < cs.len() && is_whitespace(cs[i])
        invariant
            cs@ == s@,
            i <= cs@.len(),
            trim_start(s@) == trim_start(s@.skip(i as int)),
        decreases cs@.len() - i,
    {
        assert(s@.skip(i as int).drop_first() =~= s@.skip(i + 1));
        i = i + 1;
    }
    let mut j: usize = cs.len();
    let ghost t = s@.skip(i as int);
    assert(t.take(t.len() as int) =~= t);
    while j > i && is_whitespace(cs[j - 1])
        invariant
            cs@ == s@,
            i <= j <= cs@.len(),
            t == s@.skip(i as int),
            trim_end(t) == trim_end(t.take(j - i)),
        decreases j,
    {
        assert(t.take(j - i).drop_last() =~= t.take(j - 1 - i));
        j = j - 1;
    }
    let r = substring(s, i, j);
    assert(r@ =~= t.take(j - i));
    r
}

/// The number of characters of `s` before the first `c`, or the length of
/// `s` where it holds none.
pub open spec fn count_before(s: Seq<char>, c: char) -> nat
    decreases s.len(),
{
    if s.len() == 0 {
        0
    } else if s[0] == c {
        0
    } else {
        1 + count_before(s.drop_first(), c)
    }
}

/// `count_before` is the index of the first `c`.
pub proof fn lemma_count_before(s: Seq<char>, c: char, k: int)
    requires
        0 <= k <= s.len(),
        forall|q: int| 0 <= q < k ==> s[q] != c,
        k == s.len() || s[k] == c,
    ensures
        count_before(s, c) == k,
    decreases k,
{
    if k > 0 {
        lemma_count_before(s.drop_first(), c, k - 1);
    }
}

/// `s` split at its first `c` (`str::split_once`).
pub open spec fn split_once(s: Seq<char>, c: char) -> Option<(Seq<char>, Seq<char>)> {
    let n = count_before(s, c);
    if n < s.len() {
        Some((s.take(n as int), s.skip((n + 1) as int)))
    } else {
        None
    }
}

/// Where `cs` holds `c` at or after `from`, the first such index; else its length.
pub(crate) fn find_from(cs: &Vec<char>, from: usize, c: char) -> (k: usize)
    requires
        from <= cs@.len(),
    ensures
        from <= k <= cs@.len(),
        k == from + count_before(cs@.skip(from as int), c),
        forall|q: int| from <= q < k ==> cs@[q] != c,
        k < cs@.len() ==> cs@[k as int] == c,
{
    let mut k = from;
    while k < cs.len() && cs[k] != c
        invariant
            from <= k <= cs@.len(),
            forall|q: int| from <= q < k ==> cs@[q] != c,
        decreases cs@.len() - k,
    {
        k = k + 1;
    }
    proof {
        lemma_count_before(cs@.skip(from as int), c, k - from);
    }
    k
}

/// `str::split_once` with a character pattern.
pub fn split_once_of(s: &str, c: char) -> (r: Option<(String, String)>)
    ensures
        match r {
            Some((a, b)) => split_once(s@, c) == Some((a@, b@)),
            None => split_once(s@, c) is None,
        },
{
    let cs = chars_of(s);
    let k = find_from(&cs, 0, c);
    assert(cs@.skip(0) =~= cs@);
    if k < cs.len() {
        let a = substring(s, 0, k);
        let b = substring(s, k + 1, cs.len());
        assert(a@ =~= s@.take(k as int));
        assert(b@ =~= s@.skip(k + 1));
        Some((a, b))
    } else {
        None
    }
}

/// A line without its `\r` terminator, if it has one.
pub open spec fn strip_cr(l: Seq<char>) -> Seq<char> {
    if l.len() > 0 && l.last() == '\r' {
        l.drop_last()
    } else {
        l
    }
}

/// The lines of `s` (`str::lines`): split at each `\n`, with a `\r` before
/// the `\n` dropped, and no empty line after a final `\n`.
pub open spec fn lines(s: Seq<char>) -> Seq<Seq<char>>
    decreases s.len(),
{
    if s.len() == 0 {
        seq![]
    } else {
        let n = count_before(s, '\n');
        if n < s.len() {
            seq![strip_cr(s.take(n as int))] + lines(s.skip((n + 1) as int))
        } else {
            seq![s]
        }
    }
}

/// `str::lines`.
pub fn lines_of(s: &str) -> (r: Vec<String>)
    ensures
        views(r@) == lines(s@),
{
    let cs = chars_of(s);
    let mut out: Vec<String> = Vec::new();
    let mut pos: usize = 0;
    assert(s@.skip(0) =~= s@);
    while pos < cs.len()
        invariant
            cs@ == s@,
            pos <= cs@.len(),
            lines(s@) == views(out@) + lines(s@.skip(pos as int)),
        decreases cs@.len() - pos,
    {
        let ghost rest = s@.skip(pos as int);
        let ghost prev = views(out@);
        let k = find_from(&cs, pos, '\n');
        if k < cs.len() {
            let end = if k > pos && cs[k - 1] == '\r' {
                k - 1
            } else {
                k
            };
            let line = substring(s, pos, end);
            assert(line@ =~= strip_cr(rest.take(k - pos)));
            assert(rest.skip(k - pos + 1) =~= s@.skip(k + 1));
            assert(lines(rest) == seq![line@] + lines(s@.skip(k + 1)));
            out.push(line);
            pos = k + 1;
        } else {
            let line = substring(s, pos, cs.len());
            assert(line@ =~= rest);
            out.push(line);
            pos = cs.len();
        }
        assert(views(out@) =~= prev + seq![views(out@).last()]);
    }
    assert(s@.skip(pos as int) =~= Seq::<char>::empty());
    assert(views(out@) + lines(s@.skip(pos as int)) =~= views(out@));
    out
}

} // verus!

verus! {

/// What `trim_start_matches` leaves does not begin with the pattern.
pub proof fn lemma_trim_start_matches_done(s: Seq<char>, p: Seq<char>)
    requires
        p.len() > 0,
    ensures
        !starts_with(trim_start_matches(s, p), p),
        trim_start_matches(trim_start_matches(s, p), p) == trim_start_matches(s, p),
    decreases s.len(),
{
    if starts_with(s, p) {
        lemma_trim_start_matches_done(s.skip(p.len() as int), p);
    }
}

/// Splitting at the first `c` and joining the parts with `c` gives back
/// the text, and the first part holds no `c`.
pub proof fn lemma_split_once_parts(s: Seq<char>, c: char)
    ensures
        split_once(s, c) matches Some((a, b)) ==> s == a + seq![c] + b && !a.contains(c),
        split_once(s, c) is None ==> !s.contains(c),
{
    let n = count_before(s, c);
    lemma_count_before_spec(s, c);
    if n < s.len() {
        assert(s =~= s.take(n as int) + seq![c] + s.skip((n + 1) as int));
    }
}

/// `count_before` counts the characters before the first `c`.
pub proof fn lemma_count_before_spec(s: Seq<char>, c: char)
    ensures
        count_before(s, c) <= s.len(),
        forall|q: int| 0 <= q < count_before(s, c) ==> s[q] != c,
        count_before(s, c) < s.len() ==> s[count_before(s, c) as int] == c,
    decreases s.len(),
{
    if s.len() > 0 && s[0] != c {
        lemma_count_before_spec(s.drop_first(), c);
        assert forall|q: int| 0 <= q < count_before(s, c) implies s[q] != c by {
            if q > 0 {
                assert(s[q] == s.drop_first()[q - 1]);
            }
        }
    }
}

} // verus!

verus! {

/// `lex_le` is `String`'s order: where `a` and `b` agree on their first
/// `k` characters and differ at `k`, `a` comes first exactly when its
/// character there has the smaller code point; where one is a prefix of
/// the other, the shorter comes first.
pub proof fn lemma_lex_le_first_difference(a: Seq<char>, b: Seq<char>, k: int)
    requires
        0 <= k <= a.len(),
        k <= b.len(),
        a.take(k) == b.take(k),
    ensures
        k < a.len() && k < b.len() && a[k] != b[k] ==> (lex_le(a, b) <==> (a[k] as int) < (
        b[k] as int)),
        k == a.len() ==> lex_le(a, b),
        k == b.len() && k < a.len() ==> !lex_le(a, b),
{
    assert(a.take(k) =~= b.take(k));
    lemma_lex_le_from(a, b, k);
    if k < a.len() && k < b.len() {
        assert(a.skip(k)[0] == a[k]);
        assert(b.skip(k)[0] == b[k]);
    }
}

} // verus!

verus! {

/// `n` copies of `p`, one after another.
pub open spec fn copies(p: Seq<char>, n: nat) -> Seq<char>
    decreases n,
{
    if n == 0 {
        Seq::empty()
    } else {
        p + copies(p, (n - 1) as nat)
    }
}

/// Trimming leading copies of a non-empty `p` leaves a tail of `s` that
/// does not start with `p`, and what was taken off is a run of copies of
/// `p`.
pub proof fn lemma_trim_start_matches_law(s: Seq<char>, p: Seq<char>)
    requires
        p.len() > 0,
    ensures
        !starts_with(trim_start_matches(s, p), p),
        exists|n: nat| s == copies(p, n) + trim_start_matches(s, p),
    decreases s.len(),
{
    lemma_trim_start_matches_done(s, p);
    if starts_with(s, p) {
        let t = s.skip(p.len() as int);
        lemma_trim_start_matches_law(t, p);
        let n = choose|n: nat| t == copies(p, n) + trim_start_matches(t, p);
        assert(s =~= p + t);
        assert(s =~= copies(p, n + 1) + trim_start_matches(s, p));
    } else {
        assert(s =~= copies(p, 0) + s);
    }
}

/// Trimming trailing copies of a non-empty `p` leaves a head of `s` that
/// does not end with `p`, and what was taken off is a run of copies of
/// `p`.
pub proof fn lemma_trim_end_matches_law(s: Seq<char>, p: Seq<char>)
    requires
        p.len() > 0,
    ensures
        !ends_with(trim_end_matches(s, p), p),
        exists|n: nat| s == trim_end_matches(s, p) + copies(p, n),
    decreases s.len(),
{
    if ends_with(s, p) {
        let t = s.take(s.len() - p.len());
        lemma_trim_end_matches_law(t, p);
        let n = choose|n: nat| t == trim_end_matches(t, p) + copies(p, n);
        lemma_copies_push(p, n);
        assert(s =~= t + p);
        assert(s =~= trim_end_matches(s, p) + copies(p, n + 1));
    } else {
        assert(s =~= s + copies(p, 0));
    }
}

proof fn lemma_copies_push(p: Seq<char>, n: nat)
    ensures
        copies(p, n) + p == copies(p, n + 1),
    decreases n,
{
    if n > 0 {
        lemma_copies_push(p, (n - 1) as nat);
        assert(copies(p, n) + p =~= p + (copies(p, (n - 1) as nat) + p));
    } else {
        assert(copies(p, 0) + p =~= p + copies(p, 0));
    }
}


proof fn lemma_trim_start_shape(s: Seq<char>)
    ensures
        exists|i: int|
            0 <= i <= s.len() && s.skip(i) == trim_start(s) && (forall|q: int|
                0 <= q < i ==> is_white_space(#[trigger] s[q])) && (i < s.len() ==> !is_white_space(
                s[i],
            )),
    decreases s.len(),
{
    if s.len() > 0 && is_white_space(s[0]) {
        let t = s.drop_first();
        lemma_trim_start_shape(t);
        let i = choose|i: int|
            0 <= i <= t.len() && t.skip(i) == trim_start(t) && (forall|q: int|
                0 <= q < i ==> is_white_space(#[trigger] t[q])) && (i < t.len() ==> !is_white_space(
                t[i],
            ));
        assert(s.skip(i + 1) =~= t.skip(i));
        assert forall|q: int| 0 <= q < i + 1 implies is_white_space(#[trigger] s[q]) by {
            if q > 0 {
                assert(s[q] == t[q - 1]);
            }
        }
        if i + 1 < s.len() {
            assert(s[i + 1] == t[i]);
        }
    } else {
        assert(s.skip(0) =~= s);
    }
}

proof fn lemma_trim_end_shape(s: Seq<char>)
    ensures
        exists|j: int|
            0 <= j <= s.len() && s.take(j) == trim_end(s) && (forall|q: int|
                j <= q < s.len() ==> is_white_space(#[trigger] s[q])) && (j > 0 ==> !is_white_space(
                s[j - 1],
            )),
    decreases s.len(),
{
    if s.len() > 0 && is_white_space(s.last()) {
        let t = s.drop_last();
        lemma_trim_end_shape(t);
        let j = choose|j: int|
            0 <= j <= t.len() && t.take(j) == trim_end(t) && (forall|q: int|
                j <= q < t.len() ==> is_white_space(#[trigger] t[q])) && (j > 0 ==> !is_white_space(
                t[j - 1],
            ));
        assert(s.take(j) =~= t.take(j));
        assert forall|q: int| j <= q < s.len() implies is_white_space(#[trigger] s[q]) by {
            if q < t.len() {
                assert(s[q] == t[q]);
            }
        }
        if j > 0 {
            assert(s[j - 1] == t[j - 1]);
        }
    } else {
        assert(s.take(s.len() as int) =~= s);
    }
}

/// `trim` keeps the piece of `s` between its leading and its trailing white
/// space: what it takes off on either side is white space, and what it
/// keeps, where anything, starts and ends with a character that is not.
pub proof fn lemma_trim_law(s: Seq<char>)
    ensures
        exists|i: int, j: int|
            #![trigger s.subrange(i, j)]
            0 <= i <= j <= s.len() && trim(s) == s.subrange(i, j) && (forall|q: int|
                0 <= q < i ==> is_white_space(#[trigger] s[q])) && (forall|q: int|
                j <= q < s.len() ==> is_white_space(#[trigger] s[q])) && (i < j ==> !is_white_space(
                s[i],
            ) && !is_white_space(s[j - 1])),
{
    lemma_trim_start_shape(s);
    let i = choose|i: int|
        0 <= i <= s.len() && s.skip(i) == trim_start(s) && (forall|q: int|
            0 <= q < i ==> is_white_space(#[trigger] s[q])) && (i < s.len() ==> !is_white_space(
            s[i],
        ));
    let t = s.skip(i);
    lemma_trim_end_shape(t);
    let j = choose|j: int|
        0 <= j <= t.len() && t.take(j) == trim_end(t) && (forall|q: int|
            j <= q < t.len() ==> is_white_space(#[trigger] t[q])) && (j > 0 ==> !is_white_space(
            t[j - 1],
        ));
    assert(trim(s) =~= s.subrange(i, i + j));
    assert forall|q: int| i + j <= q < s.len() implies is_white_space(#[trigger] s[q]) by {
        assert(s[q] == t[q - i]);
    }
    if j > 0 {
        assert(s[i] == t[0]);
        assert(s[i + j - 1] == t[j - 1]);
    }
}


/// How `lines` reads text: a piece without `\n` followed by `\n` is one
/// line, without a `\r` just before the `\n`, and the rest is read on; a
/// last piece without `\n` is a line of its own where it is not empty.
pub proof fn lemma_lines_law(a: Seq<char>, b: Seq<char>)
    requires
        !a.contains('\n'),
    ensures
        a.len() == 0 || a.last() != '\r' ==> lines(a + seq!['\n'] + b) == seq![a] + lines(b),
        lines(a + seq!['\r', '\n'] + b) == seq![a] + lines(b),
        a.len() > 0 ==> lines(a) == seq![a],
        lines(Seq::<char>::empty()) == Seq::<Seq<char>>::empty(),
{
    let s = a + seq!['\n'] + b;
    assert forall|q: int| 0 <= q < a.len() implies s[q] != '\n' by {
        assert(s[q] == a[q]);
        if a[q] == '\n' {
            assert(a.contains('\n'));
        }
    }
    lemma_count_before(s, '\n', a.len() as int);
    assert(s.take(a.len() as int) =~= a);
    assert(s.skip(a.len() as int + 1) =~= b);
    let a2 = a.push('\r');
    let s2 = a + seq!['\r', '\n'] + b;
    assert(s2 =~= a2 + seq!['\n'] + b);
    assert forall|q: int| 0 <= q < a2.len() implies s2[q] != '\n' by {
        if q < a.len() {
            assert(s2[q] == a[q]);
            if a[q] == '\n' {
                assert(a.contains('\n'));
            }
        }
    }
    lemma_count_before(s2, '\n', a2.len() as int);
    assert(s2.take(a2.len() as int) =~= a2);
    assert(s2.skip(a2.len() as int + 1) =~= b);
    assert(strip_cr(a2) =~= a);
    if a.len() > 0 {
        assert forall|q: int| 0 <= q < a.len() implies a[q] != '\n' by {
            if a[q] == '\n' {
                assert(a.contains('\n'));
            }
        }
        lemma_count_before(a, '\n', a.len() as int);
    }
}


/// Text split at its first `c`: a piece without `c`, then `c`, then
/// anything, splits into that piece and the rest; text without `c` does not
/// split.
pub proof fn lemma_split_once_law(a: Seq<char>, c: char, b: Seq<char>)
    ensures
        !a.contains(c) ==> split_once(a + seq![c] + b, c) == Some((a, b)),
        !a.contains(c) ==> split_once(a, c) is None,
{
    if !a.contains(c) {
        let s = a + seq![c] + b;
        assert forall|q: int| 0 <= q < a.len() implies s[q] != c by {
            assert(s[q] == a[q]);
            if a[q] == c {
                assert(a.contains(c));
            }
        }
        lemma_count_before(s, c, a.len() as int);
        assert(s.take(a.len() as int) =~= a);
        assert(s.skip(a.len() as int + 1) =~= b);
        assert forall|q: int| 0 <= q < a.len() implies a[q] != c by {
            if a[q] == c {
                assert(a.contains(c));
            }
        }
        lemma_count_before(a, c, a.len() as int);
    }
}


/// Stripping the suffix `p` gives `k` exactly when the text is `k`
/// followed by `p`, and nothing where the text does not end with `p`.
pub proof fn lemma_strip_suffix_law(s: Seq<char>, p: Seq<char>, k: Seq<char>)
    ensures
        strip_suffix(s, p) == Some(k) <==> s == k + p,
        strip_suffix(s, p) is None <==> !ends_with(s, p),
{
    if s == k + p {
        assert(s.skip(s.len() - p.len()) =~= p);
        assert(s.take(s.len() - p.len()) =~= k);
    }
    if strip_suffix(s, p) == Some(k) {
        assert(s =~= k + p);
    }
}

} // verus!
