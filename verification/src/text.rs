//! Character-level helpers on strings: conversion to and from character
//! vectors, the lexicographic order of strings, and sorting.
use vstd::prelude::*;
use vstd::utf8::{encode_scalar, encode_utf8};

verus! {

/// Appends `c` to `s` (`String::push`).
#[verifier::external_body]
fn push_char(s: &mut String, c: char)
    ensures
        final(s)@ == old(s)@.push(c),
{
    s.push(c);
}

/// The string whose characters are `cs`.
pub fn string_from_chars(cs: &[char]) -> (s: String)
    ensures
        s@ == cs@,
{
    let mut s = String::new();
    let mut i: usize = 0;
    while i < cs.len()
        invariant
            i <= cs@.len(),
            s@ == cs@.take(i as int),
        decreases cs@.len() - i,
    {
        push_char(&mut s, cs[i]);
        assert(cs@.take(i + 1) =~= cs@.take(i as int).push(cs@[i as int]));
        i = i + 1;
    }
    assert(cs@.take(cs@.len() as int) =~= cs@);
    s
}

/// The string made of the characters of `cs` from index `from` up to `to`.
pub fn string_from_range(cs: &Vec<char>, from: usize, to: usize) -> (s: String)
    requires
        from <= to <= cs@.len(),
    ensures
        s@ == cs@.subrange(from as int, to as int),
{
    let mut s = String::new();
    let mut i: usize = from;
    while i < to
        invariant
            from <= i <= to,
            to <= cs@.len(),
            s@ == cs@.subrange(from as int, i as int),
        decreases to - i,
    {
        push_char(&mut s, cs[i]);
        assert(cs@.subrange(from as int, i + 1) =~= cs@.subrange(from as int, i as int).push(cs@[i as int]));
        i = i + 1;
    }
    s
}

/// The characters of `s`.
pub fn chars_of(s: &str) -> (cs: Vec<char>)
    ensures
        cs@ == s@,
{
    broadcast use vstd::string::group_string_axioms;
    let mut cs: Vec<char> = Vec::new();
    for c in it: s.chars()
        invariant
            it.seq() == s@,
            cs@ == it.seq().take(it.index() as int),
    {
        cs.push(c);
    }
    cs
}

/// `a` comes strictly before `b` in the order of `String`'s `Ord`: character
/// by character by code point, a proper prefix first.
pub open spec fn lex_lt(a: Seq<char>, b: Seq<char>) -> bool
    decreases a.len(),
{
    if a.len() == 0 {
        b.len() > 0
    } else if b.len() == 0 {
        false
    } else if a[0] != b[0] {
        (a[0] as int) < (b[0] as int)
    } else {
        lex_lt(a.drop_first(), b.drop_first())
    }
}

/// The order is irreflexive, transitive and total on distinct strings.
pub proof fn lemma_lex_order(a: Seq<char>, b: Seq<char>, c: Seq<char>)
    ensures
        !lex_lt(a, a),
        lex_lt(a, b) && lex_lt(b, c) ==> lex_lt(a, c),
        a != b ==> lex_lt(a, b) || lex_lt(b, a),
        lex_lt(a, b) ==> !lex_lt(b, a),
    decreases a.len(),
{
    if a.len() > 0 && b.len() > 0 && c.len() > 0 {
        lemma_lex_order(a.drop_first(), b.drop_first(), c.drop_first());
    } else if a.len() > 0 && b.len() > 0 {
        lemma_lex_order(a.drop_first(), b.drop_first(), b.drop_first());
    } else if a.len() > 0 {
        lemma_lex_order(a.drop_first(), a.drop_first(), a.drop_first());
    }
    if a != b && a.len() > 0 && b.len() > 0 && a[0] == b[0] {
        if a.drop_first() == b.drop_first() {
            assert(a =~= seq![a[0]] + a.drop_first());
            assert(b =~= seq![b[0]] + b.drop_first());
        }
    }
    if a.len() == 0 && b.len() == 0 {
        assert(a =~= b);
    }
}

/// Whether `a` comes strictly before `b` (`String`'s order).
pub fn str_lt(a: &str, b: &str) -> (r: bool)
    ensures
        r == lex_lt(a@, b@),
{
    let ac = chars_of(a);
    let bc = chars_of(b);
    let mut i: usize = 0;
    assert(a@.skip(0) =~= a@);
    assert(b@.skip(0) =~= b@);
    while i < ac.len() && i < bc.len()
        invariant
            i <= ac@.len(),
            i <= bc@.len(),
            ac@ == a@,
            bc@ == b@,
            lex_lt(a@, b@) == lex_lt(a@.skip(i as int), b@.skip(i as int)),
        decreases ac@.len() - i,
    {
        let x = ac[i];
        let y = bc[i];
        assert(a@.skip(i as int)[0] == x);
        assert(b@.skip(i as int)[0] == y);
        if x != y {
            return x < y;
        }
        assert(a@.skip(i as int).drop_first() =~= a@.skip(i + 1));
        assert(b@.skip(i as int).drop_first() =~= b@.skip(i + 1));
        i = i + 1;
    }
    i == ac.len() && i < bc.len()
}

/// The views of a sequence of string references.
pub open spec fn ref_views(s: Seq<&String>) -> Seq<Seq<char>> {
    s.map_values(|t: &String| t@)
}

/// Sorts distinct terms into the order of `String`'s `Ord`.
pub fn sort_terms<'a>(v: Vec<&'a String>) -> (r: Vec<&'a String>)
    requires
        ref_views(v@).no_duplicates(),
    ensures
        r@.len() == v@.len(),
        forall|i: int, j: int| 0 <= i < j < r@.len() ==> lex_lt(#[trigger] r@[i]@, #[trigger] r@[j]@),
        ref_views(r@).to_set() == ref_views(v@).to_set(),
{
    let mut out: Vec<&'a String> = Vec::new();
    let mut i: usize = 0;
    while i < v.len()
        invariant
            i <= v@.len(),
            ref_views(v@).no_duplicates(),
            out@.len() == i,
            forall|p: int, q: int| 0 <= p < q < out@.len() ==> lex_lt(#[trigger] out@[p]@, #[trigger] out@[q]@),
            forall|y: Seq<char>| #[trigger] ref_views(out@).contains(y) <==> ref_views(v@.take(i as int)).contains(y),
        decreases v@.len() - i,
    {
        let x = v[i];
        assert forall|p: int| 0 <= p < out@.len() implies #[trigger] out@[p]@ != x@ by {
            if out@[p]@ == x@ {
                assert(ref_views(out@)[p] == x@);
                assert(ref_views(out@).contains(x@));
                assert(ref_views(v@.take(i as int)).contains(x@));
                let q = choose|q: int| 0 <= q < i && #[trigger] ref_views(v@.take(i as int))[q] == x@;
                assert(ref_views(v@)[q] == ref_views(v@)[i as int]);
            }
        }
        let mut j: usize = 0;
        while j < out.len() && !str_lt(x.as_str(), out[j].as_str())
            invariant
                j <= out@.len(),
                forall|p: int| 0 <= p < j ==> lex_lt(#[trigger] out@[p]@, x@),
                forall|p: int| 0 <= p < out@.len() ==> #[trigger] out@[p]@ != x@,
            decreases out@.len() - j,
        {
            proof {
                lemma_lex_order(x@, out@[j as int]@, x@);
            }
            j = j + 1;
        }
        let ghost before = out@;
        out.insert(j, x);
        assert forall|p: int, q: int| 0 <= p < q < out@.len() implies lex_lt(#[trigger] out@[p]@, #[trigger] out@[q]@) by {
            if q == j as int {
                assert(out@[p] == before[p]);
            } else if p == j as int {
                assert(out@[q] == before[q - 1]);
                if q - 1 > j as int {
                    lemma_lex_order(x@, before[j as int]@, before[q - 1]@);
                }
            } else if p < j as int && q > j as int {
                assert(out@[p] == before[p]);
                assert(out@[q] == before[q - 1]);
                lemma_lex_order(before[p]@, x@, before[q - 1]@);
            } else if q < j as int {
                assert(out@[p] == before[p]);
                assert(out@[q] == before[q]);
            } else {
                assert(out@[p] == before[p - 1]);
                assert(out@[q] == before[q - 1]);
            }
        }
        assert(v@.take(i + 1) =~= v@.take(i as int).push(x));
        assert(ref_views(v@.take(i + 1)) =~= ref_views(v@.take(i as int)).push(x@));
        assert forall|y: Seq<char>| #[trigger] ref_views(out@).contains(y) implies ref_views(v@.take(i + 1)).contains(y) by {
                let p = choose|p: int| 0 <= p < out@.len() && #[trigger] ref_views(out@)[p] == y;
                if p < j as int {
                    assert(out@[p] == before[p]);
                    assert(ref_views(before)[p] == y);
                    assert(ref_views(before).contains(y));
                    assert(ref_views(v@.take(i as int)).contains(y));
                    let q = choose|q: int| 0 <= q < i && #[trigger] ref_views(v@.take(i as int))[q] == y;
                    assert(ref_views(v@.take(i + 1))[q] == y);
                } else if p > j as int {
                    assert(out@[p] == before[p - 1]);
                    assert(ref_views(before)[p - 1] == y);
                    assert(ref_views(before).contains(y));
                    assert(ref_views(v@.take(i as int)).contains(y));
                    let q = choose|q: int| 0 <= q < i && #[trigger] ref_views(v@.take(i as int))[q] == y;
                    assert(ref_views(v@.take(i + 1))[q] == y);
                } else {
                    assert(ref_views(v@.take(i + 1))[i as int] == y);
                }
        }
        assert forall|y: Seq<char>| #[trigger] ref_views(out@).contains(y) <==> ref_views(v@.take(i + 1)).contains(y) by {
            if ref_views(v@.take(i + 1)).contains(y) {
                let p = choose|p: int| 0 <= p < i + 1 && #[trigger] ref_views(v@.take(i + 1))[p] == y;
                if p == i as int {
                    assert(ref_views(out@)[j as int] == y);
                } else {
                    assert(ref_views(v@.take(i as int))[p] == y);
                    assert(ref_views(before).contains(y));
                    let p2 = choose|p2: int| 0 <= p2 < before.len() && #[trigger] ref_views(before)[p2] == y;
                    if p2 < j as int {
                        assert(ref_views(out@)[p2] == y);
                    } else {
                        assert(ref_views(out@)[p2 + 1] == y);
                    }
                }
            }
        }
        i = i + 1;
    }
    assert(v@.take(v@.len() as int) =~= v@);
    assert(ref_views(out@).to_set() =~= ref_views(v@).to_set());
    out
}

/// `s` with every occurrence of `pat` replaced by `rep`, scanning from the
/// left and not overlapping (as `str::replace` does, for a non-empty pattern).
pub open spec fn replace_spec(s: Seq<char>, pat: Seq<char>, rep: Seq<char>) -> Seq<char>
    decreases s.len(),
{
    if pat.len() == 0 || s.len() < pat.len() {
        s
    } else if s.take(pat.len() as int) == pat {
        rep + replace_spec(s.skip(pat.len() as int), pat, rep)
    } else {
        seq![s[0]] + replace_spec(s.skip(1), pat, rep)
    }
}

/// Whether `pat` occurs in `s` at index `i`.
fn matches_at(s: &Vec<char>, pat: &Vec<char>, i: usize) -> (r: bool)
    requires
        i + pat@.len() <= s@.len(),
    ensures
        r == (s@.subrange(i as int, i + pat@.len()) == pat@),
{
    let mut k: usize = 0;
    while k < pat.len()
        invariant
            k <= pat@.len(),
            i + pat@.len() <= s@.len(),
            s@.len() == s.len(),
            forall|m: int| 0 <= m < k ==> s@[i + m] == pat@[m],
        decreases pat@.len() - k,
    {
        if s[i + k] != pat[k] {
            assert(s@.subrange(i as int, i + pat@.len())[k as int] != pat@[k as int]);
            return false;
        }
        k = k + 1;
    }
    assert(s@.subrange(i as int, i + pat@.len()) =~= pat@);
    true
}

/// `s` with every occurrence of the non-empty `pat` replaced by `rep`.
pub fn replace_chars(s: &Vec<char>, pat: &Vec<char>, rep: &Vec<char>) -> (r: Vec<char>)
    requires
        pat@.len() > 0,
    ensures
        r@ == replace_spec(s@, pat@, rep@),
{
    let mut out: Vec<char> = Vec::new();
    let mut i: usize = 0;
    assert(s@.skip(0) =~= s@);
    while i < s.len()
        invariant
            i <= s@.len(),
            pat@.len() > 0,
            out@ + replace_spec(s@.skip(i as int), pat@, rep@) == replace_spec(s@, pat@, rep@),
        decreases s@.len() - i,
    {
        let ghost rest = s@.skip(i as int);
        if pat.len() <= s.len() - i && matches_at(s, pat, i) {
            assert(rest.take(pat@.len() as int) =~= s@.subrange(i as int, i + pat@.len()));
            assert(rest.skip(pat@.len() as int) =~= s@.skip(i + pat@.len()));
            let mut k: usize = 0;
            let ghost out0 = out@;
            while k < rep.len()
                invariant
                    k <= rep@.len(),
                    out@ == out0 + rep@.take(k as int),
                decreases rep@.len() - k,
            {
                out.push(rep[k]);
                assert(rep@.take(k + 1) =~= rep@.take(k as int).push(rep@[k as int]));
                k = k + 1;
            }
            assert(rep@.take(rep@.len() as int) =~= rep@);
            assert(out@ + replace_spec(s@.skip(i + pat@.len()), pat@, rep@) =~= out0 + replace_spec(rest, pat@, rep@));
            i = i + pat.len();
        } else {
            proof {
                if rest.len() >= pat@.len() {
                    assert(rest.take(pat@.len() as int) =~= s@.subrange(i as int, i + pat@.len()));
                }
                assert(rest.skip(1) =~= s@.skip(i + 1));
                assert(rest[0] == s@[i as int]);
                if rest.len() < pat@.len() {
                    assert(replace_spec(rest, pat@, rep@) == rest);
                    assert(rest =~= seq![s@[i as int]] + rest.skip(1));
                    assert(replace_spec(rest.skip(1), pat@, rep@) == rest.skip(1));
                }
            }
            let ghost out0 = out@;
            out.push(s[i]);
            assert(out@ + replace_spec(s@.skip(i + 1), pat@, rep@) =~= out0 + replace_spec(rest, pat@, rep@));
            i = i + 1;
        }
    }
    assert(s@.skip(i as int) =~= Seq::<char>::empty());
    assert(out@ =~= out@ + Seq::<char>::empty());
    out
}

/// The pieces of `s` between the occurrences of `c` (as `str::split` with a
/// character pattern gives them, empty pieces included).
pub open spec fn split_spec(s: Seq<char>, c: char) -> Seq<Seq<char>>
    decreases s.len(),
{
    if s.len() == 0 {
        seq![Seq::<char>::empty()]
    } else {
        let rest = split_spec(s.drop_last(), c);
        if s.last() == c {
            rest.push(Seq::<char>::empty())
        } else {
            rest.update(rest.len() - 1, rest.last().push(s.last()))
        }
    }
}

pub(crate) proof fn lemma_split_nonempty(s: Seq<char>, c: char)
    ensures
        split_spec(s, c).len() >= 1,
    decreases s.len(),
{
    if s.len() > 0 {
        lemma_split_nonempty(s.drop_last(), c);
    }
}

/// No piece holds the separator, and the first piece starts as `s` does
/// when `s` does not start with the separator.
pub(crate) proof fn lemma_split_pieces(s: Seq<char>, c: char)
    ensures
        forall|i: int| 0 <= i < split_spec(s, c).len() ==> !(#[trigger] split_spec(s, c)[i]).contains(c),
        s.len() > 0 && s[0] != c ==> split_spec(s, c)[0].len() > 0 && split_spec(s, c)[0][0] == s[0],
    decreases s.len(),
{
    if s.len() > 0 {
        let t = s.drop_last();
        let x = s.last();
        lemma_split_pieces(t, c);
        lemma_split_nonempty(t, c);
        let rest = split_spec(t, c);
        let r = split_spec(s, c);
        assert forall|i: int| 0 <= i < r.len() implies !(#[trigger] r[i]).contains(c) by {
            if x == c {
                if i < rest.len() {
                    assert(r[i] == rest[i]);
                } else {
                    assert(r[i].len() == 0);
                }
            } else if i < rest.len() - 1 {
                assert(r[i] == rest[i]);
            } else {
                assert(r[i] == rest.last().push(x));
                assert(!rest[rest.len() - 1].contains(c));
                if r[i].contains(c) {
                    let k = choose|k: int| 0 <= k < r[i].len() && r[i][k] == c;
                    assert(rest.last()[k] == c);
                }
            }
        }
        if s[0] != c {
            if t.len() > 0 {
                assert(t[0] == s[0]);
            } else {
                assert(rest =~= seq![Seq::<char>::empty()]);
            }
        }
    }
}

/// The pieces of `s` between the occurrences of `c`.
pub fn split_chars(s: &Vec<char>, c: char) -> (r: Vec<Vec<char>>)
    ensures
        r@.map_values(|v: Vec<char>| v@) == split_spec(s@, c),
{
    let mut pieces: Vec<Vec<char>> = Vec::new();
    let mut cur: Vec<char> = Vec::new();
    let mut i: usize = 0;
    assert(s@.take(0) =~= Seq::<char>::empty());
    while i < s.len()
        invariant
            i <= s@.len(),
            pieces@.map_values(|v: Vec<char>| v@).push(cur@) == split_spec(s@.take(i as int), c),
        decreases s@.len() - i,
    {
        let ghost t = s@.take(i + 1);
        assert(t.drop_last() =~= s@.take(i as int));
        assert(t.last() == s@[i as int]);
        proof {
            lemma_split_nonempty(s@.take(i as int), c);
        }
        if s[i] == c {
            let done = cur;
            pieces.push(done);
            cur = Vec::new();
            assert(pieces@.map_values(|v: Vec<char>| v@).push(cur@) =~= split_spec(t, c));
        } else {
            let ghost prev = pieces@.map_values(|v: Vec<char>| v@).push(cur@);
            cur.push(s[i]);
            assert(pieces@.map_values(|v: Vec<char>| v@).push(cur@) =~= prev.update(prev.len() - 1, prev.last().push(s@[i as int])));
        }
        i = i + 1;
    }
    assert(s@.take(s@.len() as int) =~= s@);
    pieces.push(cur);
    pieces
}

/// Whether `c` occurs in `s`.
pub fn contains_char(s: &Vec<char>, c: char) -> (r: bool)
    ensures
        r == s@.contains(c),
{
    let mut i: usize = 0;
    while i < s.len()
        invariant
            i <= s@.len(),
            forall|k: int| 0 <= k < i ==> s@[k] != c,
        decreases s@.len() - i,
    {
        if s[i] == c {
            return true;
        }
        i = i + 1;
    }
    false
}

/// Whether `c` has the Unicode White_Space property (`char::is_whitespace`).
pub open spec fn white_space(c: char) -> bool {
    ('\u{9}' <= c && c <= '\u{d}') || c == ' ' || c == '\u{85}' || c == '\u{a0}' || c == '\u{1680}'
        || ('\u{2000}' <= c && c <= '\u{200a}') || c == '\u{2028}' || c == '\u{2029}' || c == '\u{202f}'
        || c == '\u{205f}' || c == '\u{3000}'
}

/// Whether `c` is white space.
pub fn is_white_space(c: char) -> (r: bool)
    ensures
        r == white_space(c),
{
    ('\u{9}' <= c && c <= '\u{d}') || c == ' ' || c == '\u{85}' || c == '\u{a0}' || c == '\u{1680}'
        || ('\u{2000}' <= c && c <= '\u{200a}') || c == '\u{2028}' || c == '\u{2029}' || c == '\u{202f}'
        || c == '\u{205f}' || c == '\u{3000}'
}

/// The maximal runs of non-white-space characters of `s`, in order
/// (`str::split_whitespace`).
pub open spec fn words_spec(s: Seq<char>) -> Seq<Seq<char>>
    decreases s.len(),
{
    if s.len() == 0 {
        Seq::empty()
    } else {
        let prev = words_spec(s.drop_last());
        let c = s.last();
        if white_space(c) {
            prev
        } else if s.len() >= 2 && !white_space(s[s.len() - 2]) {
            prev.update(prev.len() - 1, prev.last().push(c))
        } else {
            prev.push(seq![c])
        }
    }
}

pub(crate) proof fn lemma_words_nonempty_end(s: Seq<char>)
    ensures
        s.len() > 0 && !white_space(s.last()) ==> words_spec(s).len() > 0,
    decreases s.len(),
{
    if s.len() > 1 {
        lemma_words_nonempty_end(s.drop_last());
    }
}

/// The words of a text that ends with white space (or is empty) followed by
/// more text are the words of the first part followed by those of the second.
pub(crate) proof fn lemma_words_append(x: Seq<char>, y: Seq<char>)
    requires
        x.len() == 0 || white_space(x.last()),
    ensures
        words_spec(x + y) == words_spec(x) + words_spec(y),
    decreases y.len(),
{
    if y.len() == 0 {
        assert(x + y =~= x);
        assert(words_spec(x) + words_spec(y) =~= words_spec(x));
    } else {
        let y1 = y.drop_last();
        let c = y.last();
        assert((x + y).drop_last() =~= x + y1);
        assert((x + y).last() == c);
        lemma_words_append(x, y1);
        let a = words_spec(x);
        let w1 = words_spec(y1);
        if !white_space(c) {
            if y1.len() >= 1 {
                assert((x + y)[(x + y).len() - 2] == y[y.len() - 2]);
                if !white_space(y[y.len() - 2]) {
                    assert(y1.last() == y[y.len() - 2]);
                    lemma_words_nonempty_end(y1);
                    assert((a + w1).update((a + w1).len() - 1, (a + w1).last().push(c)) =~= a + w1.update(w1.len() - 1, w1.last().push(c)));
                } else {
                    assert((a + w1).push(seq![c]) =~= a + w1.push(seq![c]));
                }
            } else {
                if x.len() >= 1 {
                    assert((x + y)[(x + y).len() - 2] == x.last());
                }
                assert(w1 =~= Seq::<Seq<char>>::empty());
                assert((a + w1).push(seq![c]) =~= a + w1.push(seq![c]));
            }
        }
    }
}

/// A non-empty text without white space is one word.
pub(crate) proof fn lemma_words_single(s: Seq<char>)
    requires
        s.len() > 0,
        forall|i: int| 0 <= i < s.len() ==> !white_space(#[trigger] s[i]),
    ensures
        words_spec(s) == seq![s],
    decreases s.len(),
{
    let c = s.last();
    assert(!white_space(s[s.len() - 1]));
    if s.len() == 1 {
        assert(s.drop_last() =~= Seq::<char>::empty());
        assert(words_spec(s.drop_last()) =~= Seq::<Seq<char>>::empty());
        assert(seq![c] =~= s);
        assert(Seq::<Seq<char>>::empty().push(seq![c]) =~= seq![s]);
    } else {
        let t = s.drop_last();
        assert forall|i: int| 0 <= i < t.len() implies !white_space(#[trigger] t[i]) by {
            assert(t[i] == s[i]);
        }
        lemma_words_single(t);
        assert(!white_space(s[s.len() - 2]));
        assert(t.push(c) =~= s);
        assert(seq![t].last() == t);
        assert(seq![t].update(0, s) =~= seq![s]);
    }
}

/// The white-space separated words of `s`.
pub fn split_whitespace(s: &str) -> (words: Vec<Vec<char>>)
    ensures
        words@.map_values(|v: Vec<char>| v@) == words_spec(s@),
{
    let cs = chars_of(s);
    let mut words: Vec<Vec<char>> = Vec::new();
    let mut cur: Vec<char> = Vec::new();
    let mut i: usize = 0;
    assert(cs@.take(0) =~= Seq::<char>::empty());
    while i < cs.len()
        invariant
            i <= cs@.len(),
            cs@ == s@,
            cur@.len() > 0 <==> (i > 0 && !white_space(cs@[i - 1])),
            cur@.len() > 0 ==> words@.map_values(|v: Vec<char>| v@).push(cur@) == words_spec(cs@.take(i as int)),
            cur@.len() == 0 ==> words@.map_values(|v: Vec<char>| v@) == words_spec(cs@.take(i as int)),
        decreases cs@.len() - i,
    {
        let c = cs[i];
        let ghost t = cs@.take(i + 1);
        assert(t.drop_last() =~= cs@.take(i as int));
        assert(t.last() == c);
        if i > 0 {
            assert(t[i - 1] == cs@[i - 1]);
        }
        if is_white_space(c) {
            if cur.len() > 0 {
                let done = cur;
                words.push(done);
                cur = Vec::new();
            }
        } else {
            let ghost before = words@.map_values(|v: Vec<char>| v@);
            proof {
                lemma_words_nonempty_end(cs@.take(i as int));
            }
            cur.push(c);
            if cur.len() > 1 {
                assert(before.push(cur@) =~= words_spec(cs@.take(i as int)).update(
                    words_spec(cs@.take(i as int)).len() - 1, words_spec(cs@.take(i as int)).last().push(c)));
            } else {
                assert(cur@ =~= seq![c]);
                assert(before.push(cur@) =~= words_spec(cs@.take(i as int)).push(seq![c]));
            }
        }
        i = i + 1;
    }
    assert(cs@.take(cs@.len() as int) =~= cs@);
    if cur.len() > 0 {
        words.push(cur);
    }
    words
}

/// The strings of `parts` joined with `sep` between neighbours (`[T]::join`).
pub open spec fn join_spec(parts: Seq<Seq<char>>, sep: Seq<char>) -> Seq<char>
    decreases parts.len(),
{
    if parts.len() == 0 {
        Seq::empty()
    } else if parts.len() == 1 {
        parts[0]
    } else {
        join_spec(parts.drop_last(), sep) + sep + parts.last()
    }
}

/// `parts` joined with `sep` between neighbours.
pub fn join_chars(parts: &Vec<Vec<char>>, sep: &Vec<char>) -> (r: Vec<char>)
    ensures
        r@ == join_spec(parts@.map_values(|v: Vec<char>| v@), sep@),
{
    let ghost pv = parts@.map_values(|v: Vec<char>| v@);
    let mut r: Vec<char> = Vec::new();
    let mut i: usize = 0;
    assert(pv.take(0) =~= Seq::<Seq<char>>::empty());
    while i < parts.len()
        invariant
            i <= parts@.len(),
            pv == parts@.map_values(|v: Vec<char>| v@),
            r@ == join_spec(pv.take(i as int), sep@),
        decreases parts@.len() - i,
    {
        let ghost before = r@;
        if i > 0 {
            r.extend_from_slice(sep.as_slice());
            assert forall|k: int| 0 <= k < sep@.len() implies r@[before.len() + k] == sep@[k] by {
                assert(cloned::<char>(sep@[k], r@[before.len() + k]));
            }
            assert(r@ =~= before + sep@);
        }
        let ghost mid = r@;
        r.extend_from_slice(parts[i].as_slice());
        assert forall|k: int| 0 <= k < parts@[i as int]@.len() implies r@[mid.len() + k] == parts@[i as int]@[k] by {
            assert(cloned::<char>(parts@[i as int]@[k], r@[mid.len() + k]));
        }
        assert(r@ =~= mid + pv[i as int]);
        assert(pv.take(i + 1).drop_last() =~= pv.take(i as int));
        if i == 0 {
            assert(pv.take(1) =~= seq![pv[0]]);
        }
        i = i + 1;
    }
    assert(pv.take(parts@.len() as int) =~= pv);
    r
}

/// The number of bytes of the UTF-8 encoding of `s` (`str::len`).
pub open spec fn byte_len(s: Seq<char>) -> int {
    encode_utf8(s).len() as int
}

/// A string has at least as many bytes as characters.
pub proof fn lemma_byte_len_at_least_chars(s: Seq<char>)
    ensures
        byte_len(s) >= s.len(),
    decreases s.len(),
{
    if s.len() > 0 {
        lemma_byte_len_at_least_chars(s.drop_first());
    }
}

/// The bytes of two strings put together are the bytes of each.
pub proof fn lemma_byte_len_concat(a: Seq<char>, b: Seq<char>)
    ensures
        byte_len(a + b) == byte_len(a) + byte_len(b),
    decreases a.len(),
{
    if a.len() > 0 {
        lemma_byte_len_concat(a.drop_first(), b);
        assert((a + b).drop_first() =~= a.drop_first() + b);
        assert((a + b)[0] == a[0]);
    } else {
        assert(a + b =~= b);
    }
}

/// The number of bytes of the UTF-8 encoding of `c`.
fn utf8_width(c: char) -> (w: usize)
    ensures
        w as int == byte_len(seq![c]),
        w <= 4,
{
    let v = c as u32;
    proof {
        vstd::utf8::char_is_scalar(c);
        assert(seq![c].drop_first() =~= Seq::<char>::empty());
        assert(byte_len(seq![c]) == encode_scalar(v).len() + byte_len(Seq::<char>::empty()));
    }
    if v <= 0x7f {
        1
    } else if v <= 0x7ff {
        2
    } else if v <= 0xffff {
        3
    } else {
        4
    }
}

/// Whether the characters `cs` take at most `limit` bytes.
pub fn byte_len_within(cs: &Vec<char>, limit: usize) -> (r: bool)
    ensures
        r == (byte_len(cs@) <= limit),
{
    let mut used: usize = 0;
    let mut i: usize = 0;
    assert(cs@.take(0) =~= Seq::<char>::empty());
    while i < cs.len()
        invariant
            i <= cs@.len(),
            used as int == byte_len(cs@.take(i as int)),
            used <= limit,
        decreases cs@.len() - i,
    {
        let w = utf8_width(cs[i]);
        proof {
            assert(cs@.take(i + 1) =~= cs@.take(i as int) + seq![cs@[i as int]]);
            lemma_byte_len_concat(cs@.take(i as int), seq![cs@[i as int]]);
        }
        if w > limit - used {
            proof {
                assert(cs@ =~= cs@.take(i + 1) + cs@.skip(i + 1));
                lemma_byte_len_concat(cs@.take(i + 1), cs@.skip(i + 1));
            }
            return false;
        }
        used = used + w;
        i = i + 1;
    }
    assert(cs@.take(cs@.len() as int) =~= cs@);
    true
}

/// Every character of `s` is ASCII.
pub open spec fn ascii_chars(s: Seq<char>) -> bool {
    forall|i: int| 0 <= i < s.len() ==> (#[trigger] s[i] as u32) <= 0x7f
}

/// A string has as many bytes as characters exactly when it is ASCII.
pub proof fn lemma_byte_len_ascii(s: Seq<char>)
    ensures
        byte_len(s) >= s.len(),
        byte_len(s) == s.len() <==> ascii_chars(s),
    decreases s.len(),
{
    if s.len() > 0 {
        lemma_byte_len_ascii(s.drop_first());
        let v = s[0] as u32;
        assert(byte_len(s) == encode_scalar(v).len() + byte_len(s.drop_first()));
        if v <= 0x7f {
            assert(encode_scalar(v).len() == 1);
        } else {
            assert(encode_scalar(v).len() >= 2);
        }
        if ascii_chars(s) {
            assert forall|i: int| 0 <= i < s.drop_first().len() implies (#[trigger] s.drop_first()[i] as u32) <= 0x7f by {
                assert(s.drop_first()[i] == s[i + 1]);
            }
        }
        if v <= 0x7f && ascii_chars(s.drop_first()) {
            assert forall|i: int| 0 <= i < s.len() implies (#[trigger] s[i] as u32) <= 0x7f by {
                if i > 0 {
                    assert(s[i] == s.drop_first()[i - 1]);
                }
            }
        }
    } else {
        assert(ascii_chars(s));
    }
}

/// Whether the characters `cs` take as many bytes as there are of them.
pub fn one_byte_each(cs: &Vec<char>) -> (r: bool)
    ensures
        r == (byte_len(cs@) == cs@.len()),
{
    let mut i: usize = 0;
    while i < cs.len()
        invariant
            i <= cs@.len(),
            forall|j: int| 0 <= j < i ==> (#[trigger] cs@[j] as u32) <= 0x7f,
        decreases cs@.len() - i,
    {
        if cs[i] as u32 > 0x7f {
            proof {
                lemma_byte_len_ascii(cs@);
            }
            return false;
        }
        i = i + 1;
    }
    proof {
        lemma_byte_len_ascii(cs@);
    }
    true
}

/// The characters of `v` from index `from` up to `to`.
pub fn chars_range(v: &Vec<char>, from: usize, to: usize) -> (r: Vec<char>)
    requires
        from <= to <= v@.len(),
    ensures
        r@ == v@.subrange(from as int, to as int),
{
    let mut r: Vec<char> = Vec::new();
    let mut i: usize = from;
    while i < to
        invariant
            from <= i <= to <= v@.len(),
            r@ == v@.subrange(from as int, i as int),
        decreases to - i,
    {
        r.push(v[i]);
        assert(v@.subrange(from as int, i + 1) =~= v@.subrange(from as int, i as int).push(v@[i as int]));
        i = i + 1;
    }
    r
}

} // verus!
