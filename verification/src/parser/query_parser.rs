//! The query parser: splits a query into its `+`-separated alternatives and
//! distributes a prefix over a parenthesized group of alternatives.
use vstd::prelude::*;
use crate::text::{byte_len, chars_range, lemma_byte_len_ascii, one_byte_each, join_chars, join_spec, split_whitespace, string_from_chars, words_spec, lemma_words_append, white_space};
use crate::processor::query_processor::string_views;

verus! {

/// The token `+`.
pub open spec fn is_plus(t: Seq<char>) -> bool {
    t == seq!['+']
}

/// A token that starts with `(`.
pub open spec fn opens(t: Seq<char>) -> bool {
    t.len() > 0 && t[0] == '('
}

/// The number of `)` at the end of a token.
pub open spec fn trailing_parens(t: Seq<char>) -> nat
    decreases t.len(),
{
    if t.len() > 0 && t.last() == ')' {
        1 + trailing_parens(t.drop_last())
    } else {
        0
    }
}

/// The single space that joins tokens.
pub open spec fn space() -> Seq<char> {
    seq![' ']
}

/// Reads the tokens of a parenthesized group from index `k` on, with `depth`
/// open parentheses: each token is taken, the depth rises by one for a token
/// that starts with `(` and falls by the number of `)` that end it; when the
/// depth reaches zero the group ends and the token after it is skipped.
/// Gives the tokens read and the index at which reading resumes.
pub open spec fn group_scan(ts: Seq<Seq<char>>, k: int, depth: int) -> (Seq<Seq<char>>, int)
    decreases ts.len() - k,
{
    if k < 0 || k >= ts.len() {
        (Seq::empty(), ts.len() as int)
    } else {
        let d = depth + (if opens(ts[k]) { 1int } else { 0int }) - trailing_parens(ts[k]) as int;
        if k + 1 >= ts.len() {
            (seq![ts[k]], ts.len() as int)
        } else if d == 0 {
            (seq![ts[k]], k + 2)
        } else {
            let (rest, r) = group_scan(ts, k + 1, d);
            (seq![ts[k]] + rest, r)
        }
    }
}

/// The `+`-separated alternatives of the tokens from index `k` on, given the
/// alternatives found so far and the tokens of the current one; a token that
/// starts with `(` takes its group with it, joined after the current tokens.
/// `None` when a token that starts with `(` is the last one.
pub open spec fn group_alternatives(
    ts: Seq<Seq<char>>,
    k: int,
    results: Seq<Seq<char>>,
    builder: Seq<Seq<char>>,
) -> Option<Seq<Seq<char>>>
    decreases ts.len() - k,
{
    if k < 0 || k >= ts.len() {
        Some(if builder.len() != 0 { results.push(join_spec(builder, space())) } else { results })
    } else {
        let t = ts[k];
        if is_plus(t) {
            group_alternatives(
                ts,
                k + 1,
                if builder.len() != 0 { results.push(join_spec(builder, space())) } else { results },
                Seq::empty(),
            )
        } else if opens(t) {
            if k + 1 >= ts.len() {
                None
            } else {
                let (g, r) = group_scan(ts, k + 1, 1);
                proof {
                    lemma_group_scan_resume(ts, k + 1, 1);
                }
                group_alternatives(
                    ts,
                    r,
                    results.push(join_spec(seq![join_spec(builder, space()), t] + g, space())),
                    Seq::empty(),
                )
            }
        } else {
            group_alternatives(ts, k + 1, results, builder.push(t))
        }
    }
}

/// A group holds at least one token, read in order from `k`, and reading
/// resumes after it.
pub proof fn lemma_group_scan_resume(ts: Seq<Seq<char>>, k: int, depth: int)
    requires
        0 <= k < ts.len(),
    ensures
        group_scan(ts, k, depth).1 > k,
        group_scan(ts, k, depth).1 <= ts.len(),
        group_scan(ts, k, depth).0.len() >= 1,
        k + group_scan(ts, k, depth).0.len() <= ts.len(),
        group_scan(ts, k, depth).0 == ts.subrange(k, k + group_scan(ts, k, depth).0.len()),
    decreases ts.len() - k,
{
    let d = depth + (if opens(ts[k]) { 1int } else { 0int }) - trailing_parens(ts[k]) as int;
    if k + 1 >= ts.len() {
        assert(seq![ts[k]] =~= ts.subrange(k, k + 1));
    } else if d == 0 {
        assert(seq![ts[k]] =~= ts.subrange(k, k + 1));
    } else {
        lemma_group_scan_resume(ts, k + 1, d);
        let (rest, r) = group_scan(ts, k + 1, d);
        assert forall|m: int| 0 <= m < 1 + rest.len() implies #[trigger] (seq![ts[k]] + rest)[m] == ts.subrange(k, k + 1 + rest.len())[m] by {
            if m > 0 {
                assert(rest[m - 1] == ts.subrange(k + 1, k + 1 + rest.len())[m - 1]);
            }
        }
        assert(seq![ts[k]] + rest =~= ts.subrange(k, k + 1 + rest.len()));
    }
}

/// The number of `(` in `s`.
pub open spec fn count_open(s: Seq<char>) -> nat
    decreases s.len(),
{
    if s.len() == 0 {
        0
    } else {
        count_open(s.drop_last()) + if s.last() == '(' { 1nat } else { 0nat }
    }
}

/// The number of `(` in all the tokens.
pub open spec fn sum_open(ts: Seq<Seq<char>>) -> nat
    decreases ts.len(),
{
    if ts.len() == 0 {
        0
    } else {
        sum_open(ts.drop_last()) + count_open(ts.last())
    }
}

/// The index of the first token from `k` on that starts with `(`, or the
/// number of tokens when there is none.
pub open spec fn first_open(ts: Seq<Seq<char>>, k: int) -> int
    decreases ts.len() - k,
{
    if k < 0 || k >= ts.len() {
        ts.len() as int
    } else if opens(ts[k]) {
        k
    } else {
        first_open(ts, k + 1)
    }
}

/// The multiplicands read from index `k` on, after those in `mvec`: a `+`
/// is skipped, a token that starts with `(` brings its group (joined into
/// one multiplicand), any other token is a multiplicand by itself.  `None`
/// when a token that starts with `(` is the last one.
pub open spec fn multiplicands(ts: Seq<Seq<char>>, k: int, mvec: Seq<Seq<char>>) -> Option<Seq<Seq<char>>>
    decreases ts.len() - k,
{
    if k < 0 || k >= ts.len() {
        Some(mvec)
    } else {
        let t = ts[k];
        if is_plus(t) {
            multiplicands(ts, k + 1, mvec)
        } else if opens(t) {
            if k + 1 >= ts.len() {
                None
            } else {
                let (g, r) = group_scan(ts, k + 1, 1);
                proof {
                    lemma_group_scan_resume(ts, k + 1, 1);
                }
                multiplicands(ts, r, mvec.push(join_spec(seq![t] + g, space())))
            }
        } else {
            multiplicands(ts, k + 1, mvec.push(t))
        }
    }
}

/// The first `n` characters of `s` (all of them when it has fewer).
pub open spec fn take_chars(s: Seq<char>, n: int) -> Seq<char> {
    if n < s.len() { s.take(n) } else { s }
}

/// The multiplier and the multiplicands of a query: the tokens before the
/// first one that starts with `(` make the multiplier; that token and the
/// ones after it make the multiplicands, of which the first loses its first
/// character and the last loses as many characters from its end as leave it
/// one fewer than its byte length.  `None` when no token starts with `(`, a
/// group is cut off, the last multiplicand is empty, or the multiplicands
/// joined take fewer than two bytes.
pub open spec fn multiply_parts(input: Seq<char>) -> Option<(Seq<char>, Seq<Seq<char>>)> {
    let ts = words_spec(input);
    let f = first_open(ts, 0);
    if f >= ts.len() {
        None
    } else {
        match multiplicands(ts, f + 1, seq![ts[f]]) {
            None => None,
            Some(mv) => {
                let mv1 = mv.update(0, mv[0].skip(1));
                let last = mv1[mv1.len() - 1];
                let b = byte_len(last);
                if b == 0 {
                    None
                } else {
                    let mv2 = mv1.update(mv1.len() - 1, take_chars(last, b - 1));
                    if byte_len(join_spec(mv2, space())) < 2 {
                        None
                    } else {
                        Some((join_spec(ts.take(f), space()), mv2))
                    }
                }
            }
        }
    }
}

/// Whether a string ends with `)`.
pub open spec fn ends_with_close(s: Seq<char>) -> bool {
    s.len() > 0 && s.last() == ')'
}

/// What `multiply_query` gives for `input`: the multiplier followed by each
/// multiplicand, and each of those that ends with `)` multiplied out in
/// turn.  `None` on the inputs on which it panics.
pub open spec fn multiply_spec(input: Seq<char>) -> Option<Seq<Seq<char>>>
    decreases count_open(input), 1int, 0int,
{
    match multiply_parts(input) {
        None => None,
        Some((mult, mv)) => expand_results(
            mv.map_values(|m: Seq<char>| mult + space() + m),
            0,
            count_open(input),
        ),
    }
}

/// The results from index `i` on, each one that ends with `)` multiplied
/// out; a result with `bound` or more `(` (which never occurs: see
/// `lemma_results_have_fewer_opens`) counts as a failure.
pub open spec fn expand_results(rs: Seq<Seq<char>>, i: int, bound: nat) -> Option<Seq<Seq<char>>>
    decreases bound, 0int, rs.len() - i,
{
    if i < 0 || i >= rs.len() {
        Some(Seq::empty())
    } else {
        let here = if ends_with_close(rs[i]) {
            if count_open(rs[i]) < bound {
                multiply_spec(rs[i])
            } else {
                None
            }
        } else {
            Some(seq![rs[i]])
        };
        match (here, expand_results(rs, i + 1, bound)) {
            (Some(a), Some(b)) => Some(a + b),
            _ => None,
        }
    }
}

proof fn lemma_count_single(c: char)
    ensures
        count_open(seq![c]) == if c == '(' { 1nat } else { 0nat },
{
    assert(seq![c].drop_last() =~= Seq::<char>::empty());
    assert(count_open(Seq::<char>::empty()) == 0);
}

proof fn lemma_count_open_add(a: Seq<char>, b: Seq<char>)
    ensures
        count_open(a + b) == count_open(a) + count_open(b),
    decreases b.len(),
{
    if b.len() == 0 {
        assert(a + b =~= a);
    } else {
        lemma_count_open_add(a, b.drop_last());
        assert((a + b).drop_last() =~= a + b.drop_last());
    }
}

proof fn lemma_sum_open_add(x: Seq<Seq<char>>, y: Seq<Seq<char>>)
    ensures
        sum_open(x + y) == sum_open(x) + sum_open(y),
    decreases y.len(),
{
    if y.len() == 0 {
        assert(x + y =~= x);
    } else {
        lemma_sum_open_add(x, y.drop_last());
        assert((x + y).drop_last() =~= x + y.drop_last());
    }
}

proof fn lemma_join_count(parts: Seq<Seq<char>>)
    ensures
        count_open(join_spec(parts, space())) == sum_open(parts),
    decreases parts.len(),
{
    if parts.len() == 0 {
        assert(count_open(Seq::<char>::empty()) == 0);
    } else if parts.len() == 1 {
        assert(parts.drop_last() =~= Seq::<Seq<char>>::empty());
        assert(sum_open(Seq::<Seq<char>>::empty()) == 0);
        assert(parts.last() == parts[0]);
    } else {
        lemma_join_count(parts.drop_last());
        let j = join_spec(parts.drop_last(), space());
        lemma_count_open_add(j, space());
        lemma_count_open_add(j + space(), parts.last());
        lemma_count_single(' ');
    }
}

proof fn lemma_words_count(s: Seq<char>)
    ensures
        sum_open(words_spec(s)) == count_open(s),
    decreases s.len(),
{
    if s.len() > 0 {
        lemma_words_count(s.drop_last());
        let prev = words_spec(s.drop_last());
        let c = s.last();
        assert(count_open(s) == count_open(s.drop_last()) + if c == '(' { 1nat } else { 0nat });
        if crate::text::white_space(c) {
            assert(c != '(');
        } else if s.len() >= 2 && !crate::text::white_space(s[s.len() - 2]) {
            crate::text::lemma_words_nonempty_end(s.drop_last());
            assert(s.drop_last().last() == s[s.len() - 2]);
            let w = prev.last();
            let upd = prev.update(prev.len() - 1, w.push(c));
            assert(upd.drop_last() =~= prev.drop_last());
            assert(upd.last() == w.push(c));
            assert(w.push(c).drop_last() =~= w);
            assert(count_open(w.push(c)) == count_open(w) + if c == '(' { 1nat } else { 0nat });
            assert(sum_open(upd) == sum_open(upd.drop_last()) + count_open(upd.last()));
            assert(sum_open(prev) == sum_open(prev.drop_last()) + count_open(prev.last()));
            assert(words_spec(s) == upd);
        } else {
            let pushed = prev.push(seq![c]);
            assert(pushed.drop_last() =~= prev);
            lemma_count_single(c);
            assert(sum_open(pushed) == sum_open(pushed.drop_last()) + count_open(pushed.last()));
            assert(words_spec(s) == pushed);
        }
    }
}

proof fn lemma_sum_open_sub(ts: Seq<Seq<char>>, a: int, b: int, c: int, d: int)
    requires
        0 <= c <= a <= b <= d <= ts.len(),
    ensures
        sum_open(ts.subrange(a, b)) <= sum_open(ts.subrange(c, d)),
{
    assert(ts.subrange(c, d) =~= ts.subrange(c, a) + ts.subrange(a, b) + ts.subrange(b, d));
    lemma_sum_open_add(ts.subrange(c, a) + ts.subrange(a, b), ts.subrange(b, d));
    lemma_sum_open_add(ts.subrange(c, a), ts.subrange(a, b));
}

proof fn lemma_multiplicands_bound(
    ts: Seq<Seq<char>>,
    k: int,
    mvec: Seq<Seq<char>>,
    bound: nat,
    len_bound: int,
)
    requires
        0 <= k <= ts.len(),
        mvec.len() >= 1,
        forall|i: int| 1 <= i < mvec.len() ==> count_open(#[trigger] mvec[i]) <= bound,
        forall|i: int| 1 <= i < mvec.len() ==> (#[trigger] mvec[i]).len() + 1 <= len_bound,
        sum_open(ts.subrange(k, ts.len() as int)) <= bound,
        spaced_len(ts.subrange(k, ts.len() as int)) <= len_bound,
    ensures
        multiplicands(ts, k, mvec) matches Some(mv) ==> {
            &&& mv.len() >= mvec.len()
            &&& mv[0] == mvec[0]
            &&& forall|i: int| 1 <= i < mv.len() ==> count_open(#[trigger] mv[i]) <= bound
            &&& forall|i: int| 1 <= i < mv.len() ==> (#[trigger] mv[i]).len() + 1 <= len_bound
        },
    decreases ts.len() - k,
{
    if k < ts.len() {
        let t = ts[k];
        let n = ts.len() as int;
        assert(ts.subrange(k, k + 1) =~= seq![t]);
        assert(seq![t].drop_last() =~= Seq::<Seq<char>>::empty());
        lemma_sum_open_sub(ts, k, k + 1, k, n);
        lemma_sum_open_sub(ts, k + 1, n, k, n);
        lemma_spaced_len_sub(ts, k, k + 1, k, n);
        lemma_spaced_len_sub(ts, k + 1, n, k, n);
        assert(sum_len(seq![t]) == sum_len(seq![t].drop_last()) + t.len());
        if is_plus(t) {
            lemma_multiplicands_bound(ts, k + 1, mvec, bound, len_bound);
        } else if opens(t) {
            if k + 1 < ts.len() {
                let (g, r) = group_scan(ts, k + 1, 1);
                lemma_group_scan_resume(ts, k + 1, 1);
                assert(seq![t] + g =~= ts.subrange(k, k + 1 + g.len()));
                lemma_join_count(seq![t] + g);
                lemma_join_len(seq![t] + g);
                lemma_sum_open_sub(ts, k, k + 1 + g.len(), k, n);
                lemma_sum_open_sub(ts, r, n, k, n);
                lemma_spaced_len_sub(ts, k, k + 1 + g.len(), k, n);
                lemma_spaced_len_sub(ts, r, n, k, n);
                let m2 = mvec.push(join_spec(seq![t] + g, space()));
                assert forall|i: int| 1 <= i < m2.len() implies count_open(#[trigger] m2[i]) <= bound
                    && m2[i].len() + 1 <= len_bound by {
                    if i < mvec.len() {
                        assert(m2[i] == mvec[i]);
                    }
                }
                lemma_multiplicands_bound(ts, r, m2, bound, len_bound);
            }
        } else {
            let m2 = mvec.push(t);
            assert forall|i: int| 1 <= i < m2.len() implies count_open(#[trigger] m2[i]) <= bound
                && m2[i].len() + 1 <= len_bound by {
                if i < mvec.len() {
                    assert(m2[i] == mvec[i]);
                }
            }
            lemma_multiplicands_bound(ts, k + 1, m2, bound, len_bound);
        }
    }
}

proof fn lemma_first_open(ts: Seq<Seq<char>>, k: int)
    requires
        0 <= k <= ts.len(),
    ensures
        k <= first_open(ts, k) <= ts.len(),
        first_open(ts, k) < ts.len() ==> opens(ts[first_open(ts, k)]),
    decreases ts.len() - k,
{
    if k < ts.len() && !opens(ts[k]) {
        lemma_first_open(ts, k + 1);
    }
}

/// Every result of `multiply_query` holds fewer `(` than its input, so
/// multiplying the results out again ends, and is no longer than its input.
pub proof fn lemma_results_have_fewer_opens(input: Seq<char>)
    requires
        multiply_parts(input) is Some,
    ensures
        forall|i: int| 0 <= i < multiply_parts(input).unwrap().1.len() ==>
            count_open(multiply_parts(input).unwrap().0 + space() + #[trigger] multiply_parts(input).unwrap().1[i]) < count_open(input),
        forall|i: int| 0 <= i < multiply_parts(input).unwrap().1.len() ==>
            (multiply_parts(input).unwrap().0 + space() + #[trigger] multiply_parts(input).unwrap().1[i]).len() <= input.len(),
{
    let ts = words_spec(input);
    let n = ts.len() as int;
    let f = first_open(ts, 0);
    lemma_first_open(ts, 0);
    let tf = ts[f];
    let rest_sum = sum_open(ts.subrange(f + 1, n));
    let mv = multiplicands(ts, f + 1, seq![tf]).unwrap();
    let rest_len = spaced_len(ts.subrange(f + 1, n));
    lemma_multiplicands_bound(ts, f + 1, seq![tf], rest_sum, rest_len);
    let (mult, mv2) = multiply_parts(input).unwrap();
    lemma_words_count(input);
    assert(ts =~= ts.take(f) + ts.subrange(f, f + 1) + ts.subrange(f + 1, n));
    assert(ts.subrange(f, f + 1) =~= seq![tf]);
    assert(seq![tf].drop_last() =~= Seq::<Seq<char>>::empty());
    lemma_sum_open_add(ts.take(f) + ts.subrange(f, f + 1), ts.subrange(f + 1, n));
    lemma_sum_open_add(ts.take(f), ts.subrange(f, f + 1));
    lemma_join_count(ts.take(f));
    assert(tf =~= seq![tf[0]] + tf.skip(1));
    lemma_count_open_add(seq![tf[0]], tf.skip(1));
    lemma_count_single(tf[0]);
    assert(mv[0] == tf);
    let mv1 = mv.update(0, mv[0].skip(1));
    let last = mv1[mv1.len() - 1];
    let b = byte_len(last);
    assert forall|i: int| 0 <= i < mv2.len() implies
        count_open(mult + space() + #[trigger] mv2[i]) < count_open(input) by {
        lemma_count_open_add(mult, space());
        lemma_count_open_add(mult + space(), mv2[i]);
        lemma_count_single(' ');
        let before_take = mv1[i];
        if i == mv2.len() - 1 {
            let tk = take_chars(last, b - 1);
            if b - 1 < last.len() {
                assert(last =~= last.take(b - 1) + last.skip(b - 1));
                lemma_count_open_add(last.take(b - 1), last.skip(b - 1));
            }
            assert(count_open(mv2[i]) <= count_open(before_take));
        } else {
            assert(mv2[i] == before_take);
        }
        if i == 0 {
            assert(count_open(before_take) + 1 == count_open(tf));
        } else {
            assert(before_take == mv[i]);
            assert(count_open(mv[i]) <= rest_sum);
        }
    }
    lemma_words_spaced_len(input);
    lemma_join_len(ts.take(f));
    lemma_sum_len_add(ts.take(f) + ts.subrange(f, f + 1), ts.subrange(f + 1, n));
    lemma_sum_len_add(ts.take(f), ts.subrange(f, f + 1));
    assert(sum_len(seq![tf]) == sum_len(seq![tf].drop_last()) + tf.len());
    assert forall|i: int| 0 <= i < mv2.len() implies (mult + space() + #[trigger] mv2[i]).len() <= input.len() by {
        if i == mv2.len() - 1 {
            assert(mv2[i].len() <= mv1[i].len());
        } else {
            assert(mv2[i] == mv1[i]);
        }
        if i == 0 {
            assert(mv1[i].len() + 1 == tf.len());
        } else {
            assert(mv1[i] == mv[i]);
        }
    }
}

/// The number of characters of all the tokens.
pub open spec fn sum_len(ts: Seq<Seq<char>>) -> nat
    decreases ts.len(),
{
    if ts.len() == 0 {
        0
    } else {
        sum_len(ts.drop_last()) + ts.last().len()
    }
}

proof fn lemma_words_len(s: Seq<char>)
    ensures
        sum_len(words_spec(s)) <= s.len(),
        words_spec(s).len() <= s.len(),
    decreases s.len(),
{
    if s.len() > 0 {
        lemma_words_len(s.drop_last());
        let prev = words_spec(s.drop_last());
        let c = s.last();
        if crate::text::white_space(c) {
        } else if s.len() >= 2 && !crate::text::white_space(s[s.len() - 2]) {
            crate::text::lemma_words_nonempty_end(s.drop_last());
            assert(s.drop_last().last() == s[s.len() - 2]);
            let w = prev.last();
            let upd = prev.update(prev.len() - 1, w.push(c));
            assert(upd.drop_last() =~= prev.drop_last());
            assert(upd.last() == w.push(c));
            assert(sum_len(upd) == sum_len(upd.drop_last()) + upd.last().len());
            assert(sum_len(prev) == sum_len(prev.drop_last()) + prev.last().len());
            assert(words_spec(s) == upd);
        } else {
            let pushed = prev.push(seq![c]);
            assert(pushed.drop_last() =~= prev);
            assert(sum_len(pushed) == sum_len(pushed.drop_last()) + pushed.last().len());
            assert(words_spec(s) == pushed);
        }
    }
}

proof fn lemma_sum_len_prefix(ts: Seq<Seq<char>>, k: int)
    requires
        0 <= k <= ts.len(),
    ensures
        sum_len(ts.take(k)) <= sum_len(ts),
    decreases ts.len() - k,
{
    if k < ts.len() {
        lemma_sum_len_prefix(ts, k + 1);
        assert(ts.take(k + 1).drop_last() =~= ts.take(k));
    } else {
        assert(ts.take(k) =~= ts);
    }
}

proof fn lemma_trailing_le_len(t: Seq<char>)
    ensures
        trailing_parens(t) <= t.len(),
    decreases t.len(),
{
    if t.len() > 0 && t.last() == ')' {
        lemma_trailing_le_len(t.drop_last());
    }
}

/// The characters of the tokens with one separator after each.
pub open spec fn spaced_len(ts: Seq<Seq<char>>) -> int {
    (sum_len(ts) + ts.len()) as int
}

proof fn lemma_sum_len_add(x: Seq<Seq<char>>, y: Seq<Seq<char>>)
    ensures
        sum_len(x + y) == sum_len(x) + sum_len(y),
    decreases y.len(),
{
    if y.len() == 0 {
        assert(x + y =~= x);
    } else {
        lemma_sum_len_add(x, y.drop_last());
        assert((x + y).drop_last() =~= x + y.drop_last());
    }
}

proof fn lemma_spaced_len_sub(ts: Seq<Seq<char>>, a: int, b: int, c: int, d: int)
    requires
        0 <= c <= a <= b <= d <= ts.len(),
    ensures
        spaced_len(ts.subrange(a, b)) <= spaced_len(ts.subrange(c, d)),
{
    assert(ts.subrange(c, d) =~= ts.subrange(c, a) + ts.subrange(a, b) + ts.subrange(b, d));
    lemma_sum_len_add(ts.subrange(c, a) + ts.subrange(a, b), ts.subrange(b, d));
    lemma_sum_len_add(ts.subrange(c, a), ts.subrange(a, b));
}

proof fn lemma_join_len(parts: Seq<Seq<char>>)
    ensures
        parts.len() > 0 ==> join_spec(parts, space()).len() + 1 == spaced_len(parts),
        parts.len() == 0 ==> join_spec(parts, space()).len() == 0,
    decreases parts.len(),
{
    if parts.len() == 1 {
        assert(parts.drop_last() =~= Seq::<Seq<char>>::empty());
        assert(parts.last() == parts[0]);
        assert(sum_len(parts) == sum_len(parts.drop_last()) + parts.last().len());
    } else if parts.len() > 1 {
        lemma_join_len(parts.drop_last());
        assert(sum_len(parts) == sum_len(parts.drop_last()) + parts.last().len());
    }
}

/// The words of `s` with a separator after each take at most one character
/// more than `s`.
proof fn lemma_words_spaced_len(s: Seq<char>)
    ensures
        spaced_len(words_spec(s)) <= s.len() + if s.len() > 0 && !crate::text::white_space(s.last()) { 1int } else { 0int },
    decreases s.len(),
{
    if s.len() > 0 {
        lemma_words_spaced_len(s.drop_last());
        let prev = words_spec(s.drop_last());
        let c = s.last();
        if crate::text::white_space(c) {
        } else if s.len() >= 2 && !crate::text::white_space(s[s.len() - 2]) {
            crate::text::lemma_words_nonempty_end(s.drop_last());
            assert(s.drop_last().last() == s[s.len() - 2]);
            let w = prev.last();
            let upd = prev.update(prev.len() - 1, w.push(c));
            assert(upd.drop_last() =~= prev.drop_last());
            assert(upd.last() == w.push(c));
            assert(sum_len(upd) == sum_len(upd.drop_last()) + upd.last().len());
            assert(sum_len(prev) == sum_len(prev.drop_last()) + prev.last().len());
            assert(words_spec(s) == upd);
        } else {
            let pushed = prev.push(seq![c]);
            assert(pushed.drop_last() =~= prev);
            assert(sum_len(pushed) == sum_len(pushed.drop_last()) + pushed.last().len());
            assert(words_spec(s) == pushed);
            if s.len() >= 2 {
                assert(s.drop_last().last() == s[s.len() - 2]);
            }
        }
    }
}

/// Each alternative is no longer than the builder's and the remaining
/// tokens' characters with their separators.
proof fn lemma_group_alternatives_len(
    ts: Seq<Seq<char>>,
    k: int,
    results: Seq<Seq<char>>,
    builder: Seq<Seq<char>>,
    bound: int,
)
    requires
        0 <= k <= ts.len(),
        spaced_len(builder) + spaced_len(ts.subrange(k, ts.len() as int)) <= bound,
        forall|i: int| 0 <= i < results.len() ==> (#[trigger] results[i]).len() <= bound,
    ensures
        group_alternatives(ts, k, results, builder) matches Some(rs) ==> forall|i: int|
            0 <= i < rs.len() ==> (#[trigger] rs[i]).len() <= bound,
    decreases ts.len() - k,
{
    let n = ts.len() as int;
    lemma_join_len(builder);
    let flushed = if builder.len() != 0 { results.push(join_spec(builder, space())) } else { results };
    assert forall|i: int| 0 <= i < flushed.len() implies (#[trigger] flushed[i]).len() <= bound by {
        if i < results.len() {
            assert(flushed[i] == results[i]);
        }
    }
    if k < n {
        let t = ts[k];
        assert(ts.subrange(k, n) =~= seq![t] + ts.subrange(k + 1, n));
        lemma_sum_len_add(seq![t], ts.subrange(k + 1, n));
        assert(seq![t].drop_last() =~= Seq::<Seq<char>>::empty());
        if is_plus(t) {
            lemma_group_alternatives_len(ts, k + 1, flushed, Seq::empty(), bound);
        } else if opens(t) {
            if k + 1 < n {
                let (g, r) = group_scan(ts, k + 1, 1);
                lemma_group_scan_resume(ts, k + 1, 1);
                let jb = join_spec(builder, space());
                let tg = seq![t] + g;
                assert(tg =~= ts.subrange(k, k + 1 + g.len()));
                lemma_spaced_len_sub(ts, k, k + 1 + g.len(), k, n);
                lemma_spaced_len_sub(ts, r, n, k, n);
                let parts = seq![jb] + tg;
                lemma_sum_len_add(seq![jb], tg);
                assert(seq![jb].drop_last() =~= Seq::<Seq<char>>::empty());
                lemma_join_len(parts);
                assert(seq![jb, t] + g =~= parts);
                let pushed = results.push(join_spec(parts, space()));
                assert forall|i: int| 0 <= i < pushed.len() implies (#[trigger] pushed[i]).len() <= bound by {
                    if i < results.len() {
                        assert(pushed[i] == results[i]);
                    }
                }
                lemma_group_alternatives_len(ts, r, pushed, Seq::empty(), bound);
            }
        } else {
            assert(builder.push(t).drop_last() =~= builder);
            lemma_group_alternatives_len(ts, k + 1, results, builder.push(t), bound);
        }
    }
}

/// The tokens, each by its characters.
pub open spec fn token_views(ts: Seq<Vec<char>>) -> Seq<Seq<char>> {
    ts.map_values(|v: Vec<char>| v@)
}

fn is_plus_token(t: &Vec<char>) -> (r: bool)
    ensures
        r == is_plus(t@),
{
    let r = t.len() == 1 && t[0] == '+';
    if r {
        assert(t@ =~= seq!['+']);
    }
    r
}

fn opens_token(t: &Vec<char>) -> (r: bool)
    ensures
        r == opens(t@),
{
    t.len() > 0 && t[0] == '('
}

fn count_trailing_parens(t: &Vec<char>) -> (n: usize)
    ensures
        n == trailing_parens(t@),
{
    let mut n: usize = 0;
    assert(t@.take(t@.len() as int) =~= t@);
    while n < t.len() && t[t.len() - 1 - n] == ')'
        invariant
            n <= t@.len(),
            trailing_parens(t@) == n + trailing_parens(t@.take(t@.len() - n)),
        decreases t@.len() - n,
    {
        let ghost u = t@.take(t@.len() - n);
        assert(u.last() == t@[t@.len() - 1 - n]);
        assert(u.drop_last() =~= t@.take(t@.len() - n - 1));
        n = n + 1;
    }
    proof {
        let u = t@.take(t@.len() - n);
        if n < t@.len() {
            assert(u.last() == t@[t@.len() - 1 - n]);
        } else {
            assert(u.len() == 0);
        }
    }
    n
}

fn copy_chars(v: &Vec<char>) -> (r: Vec<char>)
    ensures
        r@ == v@,
{
    let mut r: Vec<char> = Vec::new();
    let mut i: usize = 0;
    while i < v.len()
        invariant
            i <= v@.len(),
            r@ == v@.take(i as int),
        decreases v@.len() - i,
    {
        r.push(v[i]);
        assert(v@.take(i + 1) =~= v@.take(i as int).push(v@[i as int]));
        i = i + 1;
    }
    assert(v@.take(v@.len() as int) =~= v@);
    r
}

/// Reads a parenthesized group starting at index `k` (see `group_scan`).
fn read_group(ts: &Vec<Vec<char>>, k: usize) -> (r: (Vec<Vec<char>>, usize))
    requires
        k < ts@.len(),
        sum_len(token_views(ts@)) <= i32::MAX,
        ts@.len() <= i32::MAX,
    ensures
        token_views(r.0@) == group_scan(token_views(ts@), k as int, 1).0,
        r.1 as int == group_scan(token_views(ts@), k as int, 1).1,
{
    let ghost tv = token_views(ts@);
    let mut group: Vec<Vec<char>> = Vec::new();
    let mut depth: i64 = 1;
    let mut i: usize = k;
    let ghost k0 = k as int;
    proof {
        lemma_sum_len_prefix(tv, k as int);
    }
    loop
        invariant_except_break
            k0 <= i < ts@.len(),
            tv == token_views(ts@),
            sum_len(tv) <= i32::MAX,
            ts@.len() <= i32::MAX,
            depth != 0,
            depth <= 1 + (i - k0),
            depth >= 1 - sum_len(tv.take(i as int)),
            token_views(group@) + group_scan(tv, i as int, depth as int).0 == group_scan(tv, k0, 1).0,
            group_scan(tv, i as int, depth as int).1 == group_scan(tv, k0, 1).1,
        ensures
            token_views(group@) == group_scan(tv, k0, 1).0,
            i as int == group_scan(tv, k0, 1).1,
        decreases ts@.len() - i,
    {
        let t = &ts[i];
        assert(tv[i as int] == t@);
        proof {
            lemma_trailing_le_len(t@);
            lemma_sum_len_prefix(tv, i + 1);
            assert(tv.take(i + 1).drop_last() =~= tv.take(i as int));
            assert(sum_len(tv.take(i + 1)) == sum_len(tv.take(i as int)) + t@.len());
        }
        let up: i64 = if opens_token(t) { 1 } else { 0 };
        let down = count_trailing_parens(t) as i64;
        let d = depth + up - down;
        let ghost before = group@;
        group.push(copy_chars(t));
        assert(token_views(group@) =~= token_views(before).push(t@));
        if i + 1 >= ts.len() {
            assert(token_views(group@) =~= token_views(before) + seq![t@]);
            i = ts.len();
            break;
        }
        if d == 0 {
            assert(token_views(group@) =~= token_views(before) + seq![t@]);
            i = i + 2;
            break;
        }
        assert(token_views(group@) + group_scan(tv, i + 1, d as int).0 =~= token_views(before) + (seq![t@] + group_scan(tv, i + 1, d as int).0));
        depth = d;
        i = i + 1;
    }
    (group, i)
}

/// What `process_query` gives for `input`: its `+`-separated alternatives
/// (see `group_alternatives`), each one that ends with `)` multiplied out.
/// `None` on the inputs on which it panics.
pub open spec fn process_spec(input: Seq<char>) -> Option<Seq<Seq<char>>> {
    match group_alternatives(words_spec(input), 0, Seq::empty(), Seq::empty()) {
        None => None,
        Some(rs) => expand_results(rs, 0, sum_open(rs) + 1),
    }
}

/// A list of strings by their characters, where there is one.
pub open spec fn opt_string_views(r: Option<Vec<String>>) -> Option<Seq<Seq<char>>> {
    match r {
        Some(v) => Some(string_views(v@)),
        None => None,
    }
}

/// A list of tokens by their characters, where there is one.
pub open spec fn opt_token_views(r: Option<Vec<Vec<char>>>) -> Option<Seq<Seq<char>>> {
    match r {
        Some(v) => Some(token_views(v@)),
        None => None,
    }
}

/// `a` followed by what `o` holds, where it holds something.
pub open spec fn opt_prepend(a: Seq<Seq<char>>, o: Option<Seq<Seq<char>>>) -> Option<Seq<Seq<char>>> {
    match o {
        Some(b) => Some(a + b),
        None => None,
    }
}

fn space_chars() -> (r: Vec<char>)
    ensures
        r@ == space(),
{
    let mut r: Vec<char> = Vec::new();
    r.push(' ');
    assert(r@ =~= space());
    r
}

/// The first `n` tokens, copied.
fn first_tokens(ts: &Vec<Vec<char>>, n: usize) -> (r: Vec<Vec<char>>)
    requires
        n <= ts@.len(),
    ensures
        token_views(r@) == token_views(ts@).take(n as int),
{
    let mut r: Vec<Vec<char>> = Vec::new();
    let mut i: usize = 0;
    while i < n
        invariant
            i <= n <= ts@.len(),
            token_views(r@) == token_views(ts@).take(i as int),
        decreases n - i,
    {
        let ghost before = token_views(r@);
        r.push(copy_chars(&ts[i]));
        assert(token_views(r@) =~= before.push(ts@[i as int]@));
        assert(token_views(ts@).take(i + 1) =~= token_views(ts@).take(i as int).push(ts@[i as int]@));
        i = i + 1;
    }
    r
}

/// Splits the tokens into `+`-separated alternatives (see
/// `group_alternatives`).
fn parse_alternatives(ts: &Vec<Vec<char>>) -> (r: Option<Vec<Vec<char>>>)
    requires
        sum_len(token_views(ts@)) <= i32::MAX,
        ts@.len() <= i32::MAX,
    ensures
        opt_token_views(r) == group_alternatives(token_views(ts@), 0, Seq::empty(), Seq::empty()),
{
    let ghost tv = token_views(ts@);
    let sep = space_chars();
    let mut results: Vec<Vec<char>> = Vec::new();
    let mut builder: Vec<Vec<char>> = Vec::new();
    let mut k: usize = 0;
    assert(token_views(results@) =~= Seq::<Seq<char>>::empty());
    assert(token_views(builder@) =~= Seq::<Seq<char>>::empty());
    while k < ts.len()
        invariant
            k <= ts@.len(),
            tv == token_views(ts@),
            sep@ == space(),
            sum_len(tv) <= i32::MAX,
            ts@.len() <= i32::MAX,
            group_alternatives(tv, k as int, token_views(results@), token_views(builder@))
                == group_alternatives(tv, 0, Seq::empty(), Seq::empty()),
        decreases ts@.len() - k,
    {
        let t = &ts[k];
        assert(tv[k as int] == t@);
        if is_plus_token(t) {
            if builder.len() != 0 {
                let ghost before = token_views(results@);
                results.push(join_chars(&builder, &sep));
                assert(token_views(results@) =~= before.push(join_spec(token_views(builder@), space())));
                builder = Vec::new();
            }
            assert(token_views(builder@) =~= Seq::<Seq<char>>::empty());
            k = k + 1;
        } else if opens_token(t) {
            if k + 1 >= ts.len() {
                return None;
            }
            let (mut g, r) = read_group(ts, k + 1);
            proof {
                lemma_group_scan_resume(tv, k + 1, 1);
            }
            let mut parts: Vec<Vec<char>> = Vec::new();
            parts.push(join_chars(&builder, &sep));
            parts.push(copy_chars(t));
            let ghost head = token_views(parts@);
            let ghost gv = token_views(g@);
            parts.append(&mut g);
            assert(token_views(parts@) =~= head + gv);
            assert(head =~= seq![join_spec(token_views(builder@), space()), t@]);
            let ghost before = token_views(results@);
            results.push(join_chars(&parts, &sep));
            assert(token_views(results@) =~= before.push(join_spec(token_views(parts@), space())));
            builder = Vec::new();
            assert(token_views(builder@) =~= Seq::<Seq<char>>::empty());
            k = r;
        } else {
            let ghost before = token_views(builder@);
            builder.push(copy_chars(t));
            assert(token_views(builder@) =~= before.push(t@));
            k = k + 1;
        }
    }
    if builder.len() != 0 {
        let ghost before = token_views(results@);
        results.push(join_chars(&builder, &sep));
        assert(token_views(results@) =~= before.push(join_spec(token_views(builder@), space())));
    }
    Some(results)
}

/// Splits a query into its multiplier and multiplicands (see
/// `multiply_parts`).
fn split_multiplication(input: &str) -> (r: Option<(Vec<char>, Vec<Vec<char>>)>)
    requires
        input@.len() <= i32::MAX,
    ensures
        match r {
            Some((m, mv)) => multiply_parts(input@) == Some((m@, token_views(mv@))),
            None => multiply_parts(input@) is None,
        },
{
    let ts = split_whitespace(input);
    let ghost tv = token_views(ts@);
    assert(tv =~= words_spec(input@));
    proof {
        lemma_words_len(input@);
    }
    let n = ts.len();
    let mut f: usize = 0;
    while f < n && !opens_token(&ts[f])
        invariant
            f <= n == ts@.len(),
            tv == token_views(ts@),
            first_open(tv, f as int) == first_open(tv, 0),
        decreases n - f,
    {
        assert(tv[f as int] == ts@[f as int]@);
        f = f + 1;
    }
    if f == n {
        return None;
    }
    assert(tv[f as int] == ts@[f as int]@);
    assert(first_open(tv, 0) == f as int);
    let sep = space_chars();
    let mut mvec: Vec<Vec<char>> = Vec::new();
    mvec.push(copy_chars(&ts[f]));
    assert(token_views(mvec@) =~= seq![tv[f as int]]);
    let mut k: usize = f + 1;
    while k < n
        invariant
            f < k <= n == ts@.len(),
            tv == token_views(ts@),
            sep@ == space(),
            sum_len(tv) <= i32::MAX,
            ts@.len() <= i32::MAX,
            mvec@.len() >= 1,
            mvec@[0]@ == tv[f as int],
            opens(tv[f as int]),
            first_open(tv, 0) == f as int,
            tv == words_spec(input@),
            multiplicands(tv, k as int, token_views(mvec@)) == multiplicands(tv, f + 1, seq![tv[f as int]]),
        decreases n - k,
    {
        let t = &ts[k];
        assert(tv[k as int] == t@);
        if is_plus_token(t) {
            k = k + 1;
        } else if opens_token(t) {
            if k + 1 >= n {
                assert(multiplicands(tv, k as int, token_views(mvec@)) is None);
                return None;
            }
            let (mut g, r) = read_group(&ts, k + 1);
            proof {
                lemma_group_scan_resume(tv, k + 1, 1);
            }
            let mut parts: Vec<Vec<char>> = Vec::new();
            parts.push(copy_chars(t));
            let ghost head = token_views(parts@);
            let ghost gv = token_views(g@);
            parts.append(&mut g);
            assert(token_views(parts@) =~= head + gv);
            assert(head =~= seq![t@]);
            let ghost before = token_views(mvec@);
            mvec.push(join_chars(&parts, &sep));
            assert(token_views(mvec@) =~= before.push(join_spec(token_views(parts@), space())));
            k = r;
        } else {
            let ghost before = token_views(mvec@);
            mvec.push(copy_chars(t));
            assert(token_views(mvec@) =~= before.push(t@));
            k = k + 1;
        }
    }
    let ghost mv = token_views(mvec@);
    assert(multiplicands(tv, f + 1, seq![tv[f as int]]) == Some(mv));
    assert(mv[0] == mvec@[0]@);
    let first_len = mvec[0].len();
    let rest_of_first = chars_range(&mvec[0], 1, first_len);
    assert(mv[0] == mvec@[0]@);
    mvec.set(0, rest_of_first);
    let ghost mv1 = token_views(mvec@);
    assert(mv1 =~= mv.update(0, mv[0].skip(1)));
    let li = mvec.len() - 1;
    let ghost last = mv1[li as int];
    assert(last == mvec@[li as int]@);
    proof {
        lemma_byte_len_ascii(last);
    }
    let last_len = mvec[li].len();
    if last_len == 0 {
        return None;
    }
    // All ASCII: one character fewer; otherwise at least as many bytes are
    // kept as there are characters, so all of them stay.
    let keep = if one_byte_each(&mvec[li]) { last_len - 1 } else { last_len };
    let shortened = chars_range(&mvec[li], 0, keep);
    assert(shortened@ =~= take_chars(last, byte_len(last) - 1));
    mvec.set(li, shortened);
    let ghost mv2 = token_views(mvec@);
    assert(mv2 =~= mv1.update(li as int, take_chars(last, byte_len(last) - 1)));
    let joined = join_chars(&mvec, &sep);
    proof {
        lemma_byte_len_ascii(joined@);
    }
    let short = joined.len() == 0 || (joined.len() == 1 && one_byte_each(&joined));
    if short {
        return None;
    }
    let mult = join_chars(&first_tokens(&ts, f), &sep);
    Some((mult, mvec))
}

/// Each result, or what it multiplies out to where it ends with `)`, in
/// order (see `expand_results`).
fn expand_each(rs: &Vec<Vec<char>>, bound: Ghost<nat>) -> (r: Option<Vec<String>>)
    requires
        forall|i: int| 0 <= i < rs@.len() ==> (#[trigger] rs@[i])@.len() <= i32::MAX,
        forall|i: int| 0 <= i < rs@.len() && ends_with_close((#[trigger] rs@[i])@) ==> count_open(rs@[i]@) < bound@,
    ensures
        opt_string_views(r) == expand_results(token_views(rs@), 0, bound@),
    decreases bound@, 0int,
{
    let ghost tv = token_views(rs@);
    let mut out: Vec<String> = Vec::new();
    let mut i: usize = 0;
    assert(string_views(out@) + Seq::<Seq<char>>::empty() =~= Seq::<Seq<char>>::empty());
    while i < rs.len()
        invariant
            i <= rs@.len(),
            tv == token_views(rs@),
            forall|j: int| 0 <= j < rs@.len() ==> (#[trigger] rs@[j])@.len() <= i32::MAX,
            forall|j: int| 0 <= j < rs@.len() && ends_with_close((#[trigger] rs@[j])@) ==> count_open(rs@[j]@) < bound@,
            expand_results(tv, 0, bound@) == opt_prepend(string_views(out@), expand_results(tv, i as int, bound@)),
        decreases rs@.len() - i,
    {
        let r = &rs[i];
        assert(tv[i as int] == r@);
        let ghost before = string_views(out@);
        let ghost rest = expand_results(tv, i + 1, bound@);
        if r.len() > 0 && r[r.len() - 1] == ')' {
            assert(ends_with_close(r@));
            let s = string_from_chars(r.as_slice());
            match multiply_all(s.as_str()) {
                None => {
                    return None;
                },
                Some(mut sub) => {
                    let ghost a = string_views(sub@);
                    out.append(&mut sub);
                    assert(string_views(out@) =~= before + a);
                    assert(before + (a + rest->0) =~= (before + a) + rest->0);
                },
            }
        } else {
            assert(!ends_with_close(r@));
            out.push(string_from_chars(r.as_slice()));
            assert(string_views(out@) =~= before + seq![r@]);
            assert(before + (seq![r@] + rest->0) =~= (before + seq![r@]) + rest->0);
        }
        i = i + 1;
    }
    assert(string_views(out@) + Seq::<Seq<char>>::empty() =~= string_views(out@));
    Some(out)
}

/// Multiplies a query out (see `multiply_spec`).
fn multiply_all(input: &str) -> (r: Option<Vec<String>>)
    requires
        input@.len() <= i32::MAX,
    ensures
        opt_string_views(r) == multiply_spec(input@),
    decreases count_open(input@), 1int,
{
    match split_multiplication(input) {
        None => None,
        Some((mult, mv)) => {
            proof {
                lemma_results_have_fewer_opens(input@);
            }
            let ghost mvv = token_views(mv@);
            let ghost expected = mvv.map_values(|m: Seq<char>| mult@ + space() + m);
            let sep = space_chars();
            let mut rs: Vec<Vec<char>> = Vec::new();
            let mut i: usize = 0;
            while i < mv.len()
                invariant
                    i <= mv@.len(),
                    mvv == token_views(mv@),
                    expected == mvv.map_values(|m: Seq<char>| mult@ + space() + m),
                    sep@ == space(),
                    token_views(rs@) == expected.take(i as int),
                decreases mv@.len() - i,
            {
                let mut parts: Vec<Vec<char>> = Vec::new();
                parts.push(copy_chars(&mult));
                parts.push(copy_chars(&mv[i]));
                let one = join_chars(&parts, &sep);
                proof {
                    let pv = token_views(parts@);
                    assert(pv =~= seq![mult@, mvv[i as int]]);
                    assert(pv.drop_last() =~= seq![mult@]);
                    assert(join_spec(pv.drop_last(), space()) == mult@);
                }
                assert(mvv[i as int] == mv@[i as int]@);
                assert(expected[i as int] == mult@ + space() + mvv[i as int]);
                assert(one@ == expected[i as int]);
                let ghost before = token_views(rs@);
                rs.push(one);
                assert(token_views(rs@) =~= before.push(expected[i as int]));
                assert(expected.take(i + 1) =~= expected.take(i as int).push(expected[i as int]));
                i = i + 1;
            }
            assert(expected.take(mv@.len() as int) =~= expected);
            assert forall|j: int| 0 <= j < rs@.len() implies (#[trigger] rs@[j])@.len() <= i32::MAX
                && (ends_with_close(rs@[j]@) ==> count_open(rs@[j]@) < count_open(input@)) by {
                assert(rs@[j]@ == token_views(rs@)[j]);
                assert(expected[j] == mult@ + space() + mvv[j]);
            }
            expand_each(&rs, Ghost(count_open(input@)))
        },
    }
}

/// Splits a query and multiplies its alternatives out (see `process_spec`).
fn process_all(input: &str) -> (r: Option<Vec<String>>)
    requires
        input@.len() < i32::MAX,
    ensures
        opt_string_views(r) == process_spec(input@),
{
    let ts = split_whitespace(input);
    let ghost tv = token_views(ts@);
    assert(tv =~= words_spec(input@));
    proof {
        lemma_words_len(input@);
        lemma_words_spaced_len(input@);
        assert(tv.subrange(0, tv.len() as int) =~= tv);
        assert(spaced_len(Seq::<Seq<char>>::empty()) == 0);
        lemma_group_alternatives_len(tv, 0, Seq::empty(), Seq::empty(), spaced_len(tv));
    }
    match parse_alternatives(&ts) {
        None => None,
        Some(rs) => {
            let ghost rv = token_views(rs@);
            assert forall|j: int| 0 <= j < rs@.len() implies (#[trigger] rs@[j])@.len() <= i32::MAX
                && (ends_with_close(rs@[j]@) ==> count_open(rs@[j]@) < sum_open(rv) + 1) by {
                assert(rs@[j]@ == rv[j]);
                lemma_sum_open_sub(rv, j, j + 1, 0, rv.len() as int);
                assert(rv.subrange(j, j + 1) =~= seq![rv[j]]);
                assert(seq![rv[j]].drop_last() =~= Seq::<Seq<char>>::empty());
                assert(rv.subrange(0, rv.len() as int) =~= rv);
            }
            expand_each(&rs, Ghost(sum_open(rv) + 1))
        },
    }
}

/// Parses search queries that combine alternatives with `+` and distribute a
/// prefix over a parenthesized group of alternatives.
pub struct QueryParser {}

impl QueryParser {
    pub fn new() -> (parser: QueryParser) {
        QueryParser {}
    }

    /// The alternatives of `input`, each one that ends with `)` multiplied
    /// out; `None` exactly on the queries that `process_query` refuses.
    pub fn try_process_query(&self, input: &str) -> (results: Option<Vec<String>>)
        requires
            input@.len() < i32::MAX,
        ensures
            opt_string_views(results) == process_spec(input@),
    {
        process_all(input)
    }

    /// The alternatives of `input`, each one that ends with `)` multiplied
    /// out (see `process_spec`).
    pub fn process_query(&self, input: &str) -> (results: Vec<String>)
        requires
            input@.len() < i32::MAX,
            process_spec(input@) is Some,
        ensures
            string_views(results@) == process_spec(input@).unwrap(),
    {
        match process_all(input) {
            Some(results) => results,
            None => Vec::new(),
        }
    }

    /// `input` multiplied out; `None` exactly on the queries that
    /// `multiply_query` refuses.
    pub fn try_multiply_query(&self, input: &str) -> (results: Option<Vec<String>>)
        requires
            input@.len() <= i32::MAX,
        ensures
            opt_string_views(results) == multiply_spec(input@),
    {
        multiply_all(input)
    }

    /// The multiplier of `input` followed by each of its multiplicands, each
    /// result that ends with `)` multiplied out in turn (see
    /// `multiply_spec`).
    pub fn multiply_query(&self, input: &str) -> (results: Vec<String>)
        requires
            input@.len() <= i32::MAX,
            multiply_spec(input@) is Some,
        ensures
            string_views(results@) == multiply_spec(input@).unwrap(),
    {
        match multiply_all(input) {
            Some(results) => results,
            None => Vec::new(),
        }
    }
}


/// Tokens that the parser takes as they are: none is a `+`, opens a group
/// with `(` or ends with `)`.
pub open spec fn plain_tokens(ts: Seq<Seq<char>>) -> bool {
    forall|i: int| 0 <= i < ts.len() ==> !is_plus(#[trigger] ts[i]) && !opens(ts[i]) && !ends_with_close(ts[i])
}

/// The alternatives left once the tokens of `builder` are done with.
pub open spec fn close_builder(results: Seq<Seq<char>>, builder: Seq<Seq<char>>) -> Seq<Seq<char>> {
    if builder.len() != 0 { results.push(join_spec(builder, space())) } else { results }
}

proof fn lemma_group_plain(ts: Seq<Seq<char>>, k: int, results: Seq<Seq<char>>, builder: Seq<Seq<char>>)
    requires
        0 <= k <= ts.len(),
        forall|i: int| k <= i < ts.len() ==> !is_plus(#[trigger] ts[i]) && !opens(ts[i]),
    ensures
        group_alternatives(ts, k, results, builder) == Some(close_builder(results, builder + ts.subrange(k, ts.len() as int))),
    decreases ts.len() - k,
{
    if k == ts.len() {
        assert(builder + ts.subrange(k, ts.len() as int) =~= builder);
    } else {
        assert(!is_plus(ts[k]) && !opens(ts[k]));
        lemma_group_plain(ts, k + 1, results, builder.push(ts[k]));
        assert(builder.push(ts[k]) + ts.subrange(k + 1, ts.len() as int) =~= builder + ts.subrange(k, ts.len() as int));
    }
}

proof fn lemma_group_until(ts: Seq<Seq<char>>, k: int, p: int, results: Seq<Seq<char>>, builder: Seq<Seq<char>>)
    requires
        0 <= k <= p < ts.len(),
        forall|i: int| k <= i < p ==> !is_plus(#[trigger] ts[i]) && !opens(ts[i]),
    ensures
        group_alternatives(ts, k, results, builder) == group_alternatives(ts, p, results, builder + ts.subrange(k, p)),
    decreases p - k,
{
    if k == p {
        assert(builder + ts.subrange(k, p) =~= builder);
    } else {
        assert(!is_plus(ts[k]) && !opens(ts[k]));
        lemma_group_until(ts, k + 1, p, results, builder.push(ts[k]));
        assert(builder.push(ts[k]) + ts.subrange(k + 1, p) =~= builder + ts.subrange(k, p));
    }
}

proof fn lemma_expand_plain(rs: Seq<Seq<char>>, i: int, bound: nat)
    requires
        0 <= i <= rs.len(),
        forall|k: int| i <= k < rs.len() ==> !ends_with_close(#[trigger] rs[k]),
    ensures
        expand_results(rs, i, bound) == Some(rs.skip(i)),
    decreases rs.len() - i,
{
    if i == rs.len() {
        assert(rs.skip(i) =~= Seq::<Seq<char>>::empty());
    } else {
        assert(!ends_with_close(rs[i]));
        lemma_expand_plain(rs, i + 1, bound);
        assert(seq![rs[i]] + rs.skip(i + 1) =~= rs.skip(i));
    }
}

proof fn lemma_join_close(w: Seq<Seq<char>>)
    requires
        w.len() > 0,
        !ends_with_close(w.last()),
    ensures
        !ends_with_close(join_spec(w, space())),
{
    if w.len() > 1 {
        let j = join_spec(w.drop_last(), space()) + space() + w.last();
        if w.last().len() > 0 {
            assert(j.last() == w.last().last());
        } else {
            assert(j.last() == ' ');
        }
    }
}

/// A query of plain words only is one alternative: its words joined.
pub proof fn lemma_plain_query(a: Seq<char>)
    requires
        words_spec(a).len() > 0,
        plain_tokens(words_spec(a)),
    ensures
        process_spec(a) == Some(seq![join_spec(words_spec(a), space())]),
{
    let wa = words_spec(a);
    lemma_group_plain(wa, 0, Seq::empty(), Seq::empty());
    assert(Seq::<Seq<char>>::empty() + wa.subrange(0, wa.len() as int) =~= wa);
    let rs = seq![join_spec(wa, space())];
    assert(!ends_with_close(wa.last())) by {
        assert(wa.last() == wa[wa.len() - 1]);
    }
    lemma_join_close(wa);
    lemma_expand_plain(rs, 0, sum_open(rs) + 1);
    assert(rs.skip(0) =~= rs);
}

proof fn lemma_plus_words(a: Seq<char>, b: Seq<char>)
    ensures
        words_spec(a + seq![' ', '+', ' '] + b) == words_spec(a) + seq![seq!['+']] + words_spec(b),
{
    let input = a + seq![' ', '+', ' '] + b;
    assert(input =~= a.push(' ') + (seq!['+', ' '] + b));
    assert(a.push(' ').drop_last() =~= a);
    assert(a.push(' ').last() == ' ');
    assert(words_spec(a.push(' ')) == words_spec(a));
    lemma_words_append(a.push(' '), seq!['+', ' '] + b);
    assert(seq!['+', ' '].last() == ' ');
    lemma_words_append(seq!['+', ' '], b);
    let one = seq!['+'];
    assert(seq!['+', ' '].drop_last() =~= one);
    assert(one.drop_last() =~= Seq::<char>::empty());
    assert(one.last() == '+');
    assert(!white_space('+'));
    assert(words_spec(Seq::<char>::empty()) =~= Seq::<Seq<char>>::empty());
    assert(words_spec(one) =~= seq![one]);
    assert(words_spec(seq!['+', ' ']) =~= seq![one]);
    assert(words_spec(a.push(' ')) + (seq![one] + words_spec(b)) =~= words_spec(a) + seq![one] + words_spec(b));
}

proof fn lemma_group_plus(wa: Seq<Seq<char>>, wb: Seq<Seq<char>>)
    requires
        wa.len() > 0,
        wb.len() > 0,
        plain_tokens(wa),
        plain_tokens(wb),
    ensures
        group_alternatives(wa + seq![seq!['+']] + wb, 0, Seq::empty(), Seq::empty())
            == Some(seq![join_spec(wa, space()), join_spec(wb, space())]),
{
    let plus = seq!['+'];
    let ts = wa + seq![plus] + wb;
    let p = wa.len() as int;
    assert forall|i: int| 0 <= i < p implies !is_plus(#[trigger] ts[i]) && !opens(ts[i]) by {
        assert(ts[i] == wa[i]);
    }
    lemma_group_until(ts, 0, p, Seq::empty(), Seq::empty());
    assert(Seq::<Seq<char>>::empty() + ts.subrange(0, p) =~= wa);
    assert(ts[p] == plus);
    let r1 = seq![join_spec(wa, space())];
    assert(close_builder(Seq::empty(), wa) =~= r1);
    assert forall|i: int| p + 1 <= i < ts.len() implies !is_plus(#[trigger] ts[i]) && !opens(ts[i]) by {
        assert(ts[i] == wb[i - p - 1]);
    }
    lemma_group_plain(ts, p + 1, r1, Seq::empty());
    assert(Seq::<Seq<char>>::empty() + ts.subrange(p + 1, ts.len() as int) =~= wb);
    assert(close_builder(r1, wb) =~= seq![join_spec(wa, space()), join_spec(wb, space())]);
}

/// The parser splits two plain queries put together with ` + ` into the
/// alternatives of the first followed by those of the second.
pub proof fn lemma_plus_splits(a: Seq<char>, b: Seq<char>)
    requires
        words_spec(a).len() > 0,
        words_spec(b).len() > 0,
        plain_tokens(words_spec(a)),
        plain_tokens(words_spec(b)),
    ensures
        process_spec(a + seq![' ', '+', ' '] + b) == Some(process_spec(a)->0 + process_spec(b)->0),
{
    let wa = words_spec(a);
    let wb = words_spec(b);
    lemma_plus_words(a, b);
    lemma_group_plus(wa, wb);
    let rs = seq![join_spec(wa, space()), join_spec(wb, space())];
    assert(!ends_with_close(wa.last())) by {
        assert(wa.last() == wa[wa.len() - 1]);
    }
    assert(!ends_with_close(wb.last())) by {
        assert(wb.last() == wb[wb.len() - 1]);
    }
    lemma_join_close(wa);
    lemma_join_close(wb);
    lemma_expand_plain(rs, 0, sum_open(rs) + 1);
    assert(rs.skip(0) =~= rs);
    lemma_plain_query(a);
    lemma_plain_query(b);
    assert(rs =~= seq![join_spec(wa, space())] + seq![join_spec(wb, space())]);
}

} // verus!
