//! The on-disk index read back from the bytes of its files: the vocabulary
//! table, a binary search of the vocabulary, postings lists with their
//! variable-byte numbers, and the document weights.
use vstd::prelude::*;
use vstd::utf8::{decode_utf8, encode_utf8, is_char_boundary, valid_utf8};
use byteorder::{BigEndian, ByteOrder};
use std::collections::HashMap;
use crate::index::variable_byte::{decode, scanned_value, vb_decoded, vb_scan_len, vb_value};
use crate::text::{lemma_lex_order, lex_lt, str_lt};
use crate::processor::query_processor::{holds_term, string_views};
use crate::processor::query_plan::lemma_push_contains;

verus! {

/// The number that the bytes `b` spell, most significant first.
pub open spec fn be_value(b: Seq<u8>) -> nat
    decreases b.len(),
{
    if b.len() == 0 {
        0
    } else {
        be_value(b.drop_last()) * 256 + b.last() as nat
    }
}

/// `BigEndian::read_u32` of byteorder: the first four bytes of `buf`, most
/// significant first.  It panics on fewer than four bytes.
#[verifier::external_body]
fn read_be_u32(buf: &[u8]) -> (n: u32)
    requires
        buf@.len() >= 4,
    ensures
        n as nat == be_value(buf@.take(4)),
{
    BigEndian::read_u32(buf)
}

/// `BigEndian::read_u64` of byteorder: the first eight bytes of `buf`, most
/// significant first.  It panics on fewer than eight bytes.
#[verifier::external_body]
fn read_be_u64(buf: &[u8]) -> (n: u64)
    requires
        buf@.len() >= 8,
    ensures
        n as nat == be_value(buf@.take(8)),
{
    BigEndian::read_u64(buf)
}

/// `core::str::from_utf8`: the text whose UTF-8 encoding is `v`, or `None`
/// when `v` is not valid UTF-8.
#[verifier::external_body]
fn str_from_utf8<'a>(v: &'a [u8]) -> (r: Option<&'a str>)
    ensures
        match r {
            Some(s) => valid_utf8(v@) && encode_utf8(s@) == v@,
            None => !valid_utf8(v@),
        },
{
    core::str::from_utf8(v).ok()
}

/// The bytes of `v` from `from` up to `to`.
fn byte_range(v: &Vec<u8>, from: usize, to: usize) -> (r: Vec<u8>)
    requires
        from <= to <= v@.len(),
    ensures
        r@ == v@.subrange(from as int, to as int),
{
    let mut r: Vec<u8> = Vec::new();
    let mut i: usize = from;
    while i < to
        invariant
            from <= i <= to <= v@.len(),
            r@ == v@.subrange(from as int, i as int),
        decreases to - i,
    {
        r.push(v[i]);
        assert(v@.subrange(from as int, i + 1) =~= v@.subrange(from as int, i as int).push(v@[i as int]));
        i = i + 1;
    }
    r
}

/// The big-endian `u32` at `p`.
fn u32_at(v: &Vec<u8>, p: usize) -> (n: u32)
    requires
        p + 4 <= v@.len(),
    ensures
        n as nat == be_value(v@.subrange(p as int, p + 4)),
{
    let total = v.len();
    assert(p + 4 <= total);
    let b = byte_range(v, p, p + 4);
    assert(b@.take(4) =~= b@);
    read_be_u32(b.as_slice())
}

/// The big-endian `u64` at `p`.
fn u64_at(v: &Vec<u8>, p: usize) -> (n: u64)
    requires
        p + 8 <= v@.len(),
    ensures
        n as nat == be_value(v@.subrange(p as int, p + 8)),
{
    let total = v.len();
    assert(p + 8 <= total);
    let b = byte_range(v, p, p + 8);
    assert(b@.take(8) =~= b@);
    read_be_u64(b.as_slice())
}

/// The vocabulary table of a `vocab_table.bin` file: after a four-byte
/// count, each whole eight-byte big-endian number.
pub open spec fn vocab_table_spec(bytes: Seq<u8>) -> Seq<u64> {
    Seq::new(((bytes.len() - 4) / 8) as nat, |k: int| be_value(bytes.subrange(4 + 8 * k, 12 + 8 * k)) as u64)
}

/// The bytes from `p` on that a variable-byte number is read from: five, or
/// those that are left at the end.
pub open spec fn vb_window(bytes: Seq<u8>, p: int) -> Seq<u8> {
    bytes.subrange(p, if p + 5 <= bytes.len() { p + 5 } else { bytes.len() as int })
}

/// The variable-byte number at `p` and the number of bytes it takes;
/// `None` where reading it panics: no byte of the window terminates it, or
/// it goes beyond `u32`.
pub open spec fn vb_at(bytes: Seq<u8>, p: int) -> Option<(nat, nat)> {
    if p < 0 || p > bytes.len() {
        None
    } else {
        let w = vb_window(bytes, p);
        if vb_value(w.take(vb_scan_len(w) as int)) > u32::MAX {
            None
        } else {
            vb_decoded(w)
        }
    }
}

/// Reads the variable-byte number at `p` (see `vb_at`).
fn vb_read(v: &Vec<u8>, p: usize) -> (r: Option<(u32, u32)>)
    ensures
        match vb_at(v@, p as int) {
            Some((n, c)) => r == Some((n as u32, c as u32)),
            None => r is None,
        },
{
    let len = v.len();
    if p > len {
        return None;
    }
    let end = if len - p >= 5 { p + 5 } else { len };
    let w = byte_range(v, p, end);
    assert(w@ =~= vb_window(v@, p as int));
    if scanned_value(w.as_slice()) > 4294967295 {
        return None;
    }
    decode(w.as_slice())
}

/// One posting of an on-disk list: the document, the term's frequency in
/// it, the bits of the four stored scores and the positions.
pub type DiskPosting = (u32, u32, u64, u64, u64, u64, Vec<u32>);

/// A posting by its values.
pub open spec fn posting_view(p: DiskPosting) -> (u32, u32, u64, u64, u64, u64, Seq<u32>) {
    (p.0, p.1, p.2, p.3, p.4, p.5, p.6@)
}

/// `count` positions read from `p` on, each the sum of `acc` and the gaps
/// read so far, and the index after them; `None` where reading panics.
pub open spec fn read_positions(bytes: Seq<u8>, p: int, count: nat, acc: nat) -> Option<(Seq<u32>, int)>
    decreases count,
{
    if count == 0 {
        Some((Seq::empty(), p))
    } else {
        match vb_at(bytes, p) {
            None => None,
            Some((g, c)) => if acc + g > u32::MAX {
                None
            } else {
                match read_positions(bytes, p + c, (count - 1) as nat, acc + g) {
                    None => None,
                    Some((rest, q)) => Some((seq![(acc + g) as u32] + rest, q)),
                }
            },
        }
    }
}

/// The index after `count` variable-byte numbers read from `p` on.
pub open spec fn skip_numbers(bytes: Seq<u8>, p: int, count: nat) -> Option<int>
    decreases count,
{
    if count == 0 {
        Some(p)
    } else {
        match vb_at(bytes, p) {
            None => None,
            Some((g, c)) => skip_numbers(bytes, p + c, (count - 1) as nat),
        }
    }
}

/// The big-endian `u64` of the eight bytes at `q`.
pub open spec fn u64_spec(bytes: Seq<u8>, q: int) -> u64 {
    be_value(bytes.subrange(q, q + 8)) as u64
}

/// One posting read from `p` on, whose document follows `doc`, and the
/// index after it: the gap to the document, the four eight-byte scores, the
/// frequency and (when `with_positions`, else none) the position gaps.
pub open spec fn read_record(bytes: Seq<u8>, p: int, doc: nat, with_positions: bool)
    -> Option<((u32, u32, u64, u64, u64, u64, Seq<u32>), int)>
{
    match vb_at(bytes, p) {
        None => None,
        Some((gap, c)) => {
            let d = doc + gap;
            let q = p + c;
            if d > u32::MAX || q + 32 > bytes.len() {
                None
            } else {
                match vb_at(bytes, q + 32) {
                    None => None,
                    Some((tf, c2)) => {
                        let r = q + 32 + c2;
                        let scores = (u64_spec(bytes, q), u64_spec(bytes, q + 8), u64_spec(bytes, q + 16), u64_spec(bytes, q + 24));
                        if with_positions {
                            match read_positions(bytes, r, tf, 0) {
                                None => None,
                                Some((ps, e)) => Some(((d as u32, tf as u32, scores.0, scores.1, scores.2, scores.3, ps), e)),
                            }
                        } else {
                            match skip_numbers(bytes, r, tf) {
                                None => None,
                                Some(e) => Some(((d as u32, tf as u32, scores.0, scores.1, scores.2, scores.3, Seq::empty()), e)),
                            }
                        }
                    },
                }
            }
        },
    }
}

/// `count` postings read from `p` on, the first following document `doc`.
pub open spec fn read_records(bytes: Seq<u8>, p: int, count: nat, doc: nat, with_positions: bool)
    -> Option<Seq<(u32, u32, u64, u64, u64, u64, Seq<u32>)>>
    decreases count,
{
    if count == 0 {
        Some(Seq::empty())
    } else {
        match read_record(bytes, p, doc, with_positions) {
            None => None,
            Some((rec, q)) => match read_records(bytes, q, (count - 1) as nat, rec.0 as nat, with_positions) {
                None => None,
                Some(rest) => Some(seq![rec] + rest),
            },
        }
    }
}

/// The postings list at `pos`: a four-byte document frequency, then that
/// many postings.
pub open spec fn postings_at(bytes: Seq<u8>, pos: int, with_positions: bool)
    -> Option<Seq<(u32, u32, u64, u64, u64, u64, Seq<u32>)>>
{
    if pos < 0 || pos + 4 > bytes.len() {
        None
    } else {
        read_records(bytes, pos + 4, be_value(bytes.subrange(pos, pos + 4)), 0, with_positions)
    }
}

/// A number read from a window takes no more bytes than the window has.
proof fn lemma_vb_count(bytes: Seq<u8>, p: int)
    ensures
        vb_at(bytes, p) matches Some((n, c)) ==> 1 <= c <= 5 && p + c <= bytes.len() && n <= u32::MAX,
{
    if p >= 0 && p <= bytes.len() {
        let w = vb_window(bytes, p);
        lemma_end_within(w, 0);
        assert(w.len() <= 5);
    }
}

proof fn lemma_end_within(s: Seq<u8>, i: nat)
    ensures
        crate::index::variable_byte::vb_end_from(s, i) matches Some(e) ==> e < s.len() && e >= i,
    decreases 5 - i,
{
    if i < 5 && i < s.len() && s[i as int] < 128 {
        lemma_end_within(s, i + 1);
    }
}

/// Reads `count` positions from `p` on (see `read_positions`).
fn read_positions_exec(v: &Vec<u8>, p: usize, count: u32) -> (r: Option<(Vec<u32>, usize)>)
    ensures
        match read_positions(v@, p as int, count as nat, 0) {
            Some((ps, q)) => r matches Some((rv, rq)) && rv@ == ps && rq as int == q,
            None => r is None,
        },
{
    let mut positions: Vec<u32> = Vec::new();
    let mut acc: u32 = 0;
    let mut at: usize = p;
    let mut k: u32 = 0;
    let total = v.len();
    assert(positions@ =~= Seq::<u32>::empty());
    while k < count
        invariant
            k <= count,
            total == v@.len(),
            read_positions(v@, p as int, count as nat, 0) == match read_positions(v@, at as int, (count - k) as nat, acc as nat) {
                Some((rest, q)) => Some((positions@ + rest, q)),
                None => None,
            },
        decreases count - k,
    {
        proof {
            lemma_vb_count(v@, at as int);
        }
        match vb_read(v, at) {
            None => {
                return None;
            },
            Some((g, c)) => {
                let ghost old_at = at as int;
                let ghost old_acc = acc as nat;
                let ghost before = positions@;
                if g > 4294967295u32 - acc {
                    return None;
                }
                acc = acc + g;
                positions.push(acc);
                at = at + c as usize;
                proof {
                    let rest = read_positions(v@, at as int, (count - k - 1) as nat, acc as nat);
                    assert(read_positions(v@, old_at, (count - k) as nat, old_acc) == match rest {
                        Some((rs, q)) => Some((seq![acc] + rs, q)),
                        None => None,
                    });
                    if let Some((rs, q)) = rest {
                        assert(before + (seq![acc] + rs) =~= positions@ + rs);
                    }
                }
            },
        }
        k = k + 1;
    }
    assert(positions@ + Seq::<u32>::empty() =~= positions@);
    Some((positions, at))
}

/// Skips `count` variable-byte numbers from `p` on (see `skip_numbers`).
fn skip_numbers_exec(v: &Vec<u8>, p: usize, count: u32) -> (r: Option<usize>)
    ensures
        match skip_numbers(v@, p as int, count as nat) {
            Some(q) => r == Some(q as usize) && q == r->0 as int,
            None => r is None,
        },
{
    let mut at: usize = p;
    let mut k: u32 = 0;
    let total = v.len();
    while k < count
        invariant
            k <= count,
            total == v@.len(),
            skip_numbers(v@, p as int, count as nat) == skip_numbers(v@, at as int, (count - k) as nat),
        decreases count - k,
    {
        proof {
            lemma_vb_count(v@, at as int);
        }
        match vb_read(v, at) {
            None => {
                return None;
            },
            Some((g, c)) => {
                at = at + c as usize;
            },
        }
        k = k + 1;
    }
    Some(at)
}

/// Reads one posting from `p` on, after document `doc` (see `read_record`).
fn read_record_exec(v: &Vec<u8>, p: usize, doc: u32, with_positions: bool) -> (r: Option<(DiskPosting, usize)>)
    ensures
        match read_record(v@, p as int, doc as nat, with_positions) {
            Some((rec, q)) => r matches Some((rv, rq)) && posting_view(rv) == rec && rq as int == q,
            None => r is None,
        },
{
    let total = v.len();
    proof {
        lemma_vb_count(v@, p as int);
    }
    let (gap, c) = match vb_read(v, p) {
        None => return None,
        Some(x) => x,
    };
    if gap > 4294967295u32 - doc {
        return None;
    }
    let d = doc + gap;
    let q = p + c as usize;
    if total - q < 32 {
        return None;
    }
    let s0 = u64_at(v, q);
    let s1 = u64_at(v, q + 8);
    let s2 = u64_at(v, q + 16);
    let s3 = u64_at(v, q + 24);
    proof {
        lemma_vb_count(v@, q + 32);
    }
    let (tf, c2) = match vb_read(v, q + 32) {
        None => return None,
        Some(x) => x,
    };
    let r = q + 32 + c2 as usize;
    if with_positions {
        match read_positions_exec(v, r, tf) {
            None => None,
            Some((ps, e)) => Some(((d, tf, s0, s1, s2, s3, ps), e)),
        }
    } else {
        match skip_numbers_exec(v, r, tf) {
            None => None,
            Some(e) => {
                let ps: Vec<u32> = Vec::new();
                assert(ps@ =~= Seq::<u32>::empty());
                Some(((d, tf, s0, s1, s2, s3, ps), e))
            },
        }
    }
}

/// Reads the postings list at `pos` (see `postings_at`).
fn read_postings_at(v: &Vec<u8>, pos: u64, with_positions: bool) -> (r: Option<Vec<DiskPosting>>)
    ensures
        match postings_at(v@, pos as int, with_positions) {
            Some(l) => r matches Some(rv) && rv@.map_values(|x: DiskPosting| posting_view(x)) == l,
            None => r is None,
        },
{
    let total = v.len();
    if pos > total as u64 || total as u64 - pos < 4 {
        return None;
    }
    let start = pos as usize;
    let df = u32_at(v, start);
    let mut results: Vec<DiskPosting> = Vec::new();
    let mut at: usize = start + 4;
    let mut doc: u32 = 0;
    let mut k: u32 = 0;
    assert(results@.map_values(|x: DiskPosting| posting_view(x)) =~= Seq::<(u32, u32, u64, u64, u64, u64, Seq<u32>)>::empty());
    while k < df
        invariant
            k <= df,
            total == v@.len(),
            postings_at(v@, pos as int, with_positions) == match read_records(v@, at as int, (df - k) as nat, doc as nat, with_positions) {
                Some(rest) => Some(results@.map_values(|x: DiskPosting| posting_view(x)) + rest),
                None => None,
            },
        decreases df - k,
    {
        let ghost before = results@.map_values(|x: DiskPosting| posting_view(x));
        let ghost old_at = at as int;
        let ghost old_doc = doc as nat;
        match read_record_exec(v, at, doc, with_positions) {
            None => {
                return None;
            },
            Some((rec, q)) => {
                let ghost rv = posting_view(rec);
                doc = rec.0;
                results.push(rec);
                at = q;
                proof {
                    let rest = read_records(v@, at as int, (df - k - 1) as nat, doc as nat, with_positions);
                    assert(read_records(v@, old_at, (df - k) as nat, old_doc, with_positions) == match rest {
                        Some(rs) => Some(seq![rv] + rs),
                        None => None,
                    });
                    assert(results@.map_values(|x: DiskPosting| posting_view(x)) =~= before.push(rv));
                    if let Some(rs) = rest {
                        assert(before + (seq![rv] + rs) =~= before.push(rv) + rs);
                    }
                }
            },
        }
        k = k + 1;
    }
    assert(results@.map_values(|x: DiskPosting| posting_view(x)) + Seq::<(u32, u32, u64, u64, u64, u64, Seq<u32>)>::empty()
        =~= results@.map_values(|x: DiskPosting| posting_view(x)));
    Some(results)
}

/// The sum of the frequencies of `count` postings read from `p` on, the
/// first following document `doc`, added to `acc`: the scores are skipped
/// and the positions read over; `None` where reading panics.
pub open spec fn sum_frequencies(bytes: Seq<u8>, p: int, count: nat, doc: nat, acc: nat) -> Option<nat>
    decreases count,
{
    if count == 0 {
        Some(acc)
    } else {
        match vb_at(bytes, p) {
            None => None,
            Some((gap, c)) => if doc + gap > u32::MAX {
                None
            } else {
                match vb_at(bytes, p + c + 32) {
                    None => None,
                    Some((tf, c2)) => if acc + tf > u32::MAX {
                        None
                    } else {
                        match skip_numbers(bytes, p + c + 32 + c2, tf) {
                            None => None,
                            Some(e) => sum_frequencies(bytes, e, (count - 1) as nat, doc + gap, acc + tf),
                        }
                    },
                }
            },
        }
    }
}

/// The total frequency of the term whose list is at `pos`.
pub open spec fn term_frequency_at(bytes: Seq<u8>, pos: int) -> Option<nat> {
    if pos < 0 || pos + 4 > bytes.len() {
        None
    } else {
        sum_frequencies(bytes, pos + 4, be_value(bytes.subrange(pos, pos + 4)), 0, 0)
    }
}

/// Sums the frequencies of the list at `pos` (see `term_frequency_at`).
fn frequency_at(v: &Vec<u8>, pos: u64) -> (r: Option<u32>)
    ensures
        match term_frequency_at(v@, pos as int) {
            Some(n) => r == Some(n as u32) && n <= u32::MAX,
            None => r is None,
        },
{
    let total = v.len();
    if pos > total as u64 || total as u64 - pos < 4 {
        return None;
    }
    let start = pos as usize;
    let df = u32_at(v, start);
    let mut at: usize = start + 4;
    let mut doc: u32 = 0;
    let mut acc: u32 = 0;
    let mut k: u32 = 0;
    while k < df
        invariant
            k <= df,
            total == v@.len(),
            term_frequency_at(v@, pos as int) == sum_frequencies(v@, at as int, (df - k) as nat, doc as nat, acc as nat),
        decreases df - k,
    {
        proof {
            lemma_vb_count(v@, at as int);
        }
        let (gap, c) = match vb_read(v, at) {
            None => return None,
            Some(x) => x,
        };
        if gap > 4294967295u32 - doc {
            return None;
        }
        let q = at + c as usize;
        if total - q < 32 {
            proof {
                assert(vb_at(v@, q + 32) is None);
            }
            return None;
        }
        proof {
            lemma_vb_count(v@, q + 32);
        }
        let (tf, c2) = match vb_read(v, q + 32) {
            None => return None,
            Some(x) => x,
        };
        if tf > 4294967295u32 - acc {
            return None;
        }
        let e = match skip_numbers_exec(v, q + 32 + c2 as usize, tf) {
            None => return None,
            Some(e) => e,
        };
        doc = doc + gap;
        acc = acc + tf;
        at = e;
        k = k + 1;
    }
    Some(acc)
}

/// The weights of document `doc_id` in a `doc_weights.bin` file: the bits of
/// the average document length (the first eight bytes), then, at
/// `32 * doc_id + 8`, the bits of the document weight, the document length,
/// its size in bytes and the bits of its average term frequency.
pub open spec fn weights_at(bytes: Seq<u8>, doc_id: u32) -> Option<(u64, u64, u64, u64, u64)> {
    let off = doc_id as int * 32 + 8;
    if bytes.len() < 8 || off + 32 > bytes.len() {
        None
    } else {
        Some((u64_spec(bytes, 0), u64_spec(bytes, off), u64_spec(bytes, off + 8), u64_spec(bytes, off + 16), u64_spec(bytes, off + 24)))
    }
}

/// The term at entry `m` of the vocabulary table: the text from its
/// position up to that of the next entry (to the end of the vocabulary for
/// the last one); `None` where reading it panics.
pub open spec fn table_term(table: Seq<u64>, vocab: Seq<u8>, m: int) -> Option<Seq<char>> {
    let pos = table[2 * m] as int;
    let end = if m == table.len() / 2 - 1 { vocab.len() as int } else { table[2 * m + 2] as int };
    if end < pos || (end > pos && end > vocab.len()) {
        None
    } else {
        let bytes = if end == pos { Seq::<u8>::empty() } else { vocab.subrange(pos, end) };
        if valid_utf8(bytes) {
            Some(decode_utf8(bytes))
        } else {
            None
        }
    }
}

/// The binary search of the table's entries from `i` through `j` for
/// `term`: the postings position of the entry that holds it, `-1` when none
/// does, `None` where the search panics (a term that cannot be read, or a
/// term before the first entry's).
pub open spec fn search_from(table: Seq<u64>, vocab: Seq<u8>, term: Seq<char>, i: int, j: int) -> Option<i64>
    decreases j + 1 - i,
{
    if i > j || i < 0 || 2 * j + 1 >= table.len() {
        if i > j {
            Some(-1i64)
        } else {
            None
        }
    } else {
        let m = (i + j) / 2;
        match table_term(table, vocab, m) {
            None => None,
            Some(t) => if t == term {
                Some(table[2 * m + 1] as i64)
            } else if lex_lt(term, t) {
                if m == 0 {
                    None
                } else {
                    search_from(table, vocab, term, i, m - 1)
                }
            } else {
                search_from(table, vocab, term, m + 1, j)
            },
        }
    }
}

/// The binary search of the whole table for `term`.
pub open spec fn vocab_search(table: Seq<u64>, vocab: Seq<u8>, term: Seq<char>) -> Option<i64> {
    if table.len() / 2 == 0 {
        None
    } else {
        search_from(table, vocab, term, 0, table.len() / 2 - 1)
    }
}

/// Reads the term at entry `m` (see `table_term`).
fn read_table_term(table: &Vec<u64>, vocab: &Vec<u8>, m: usize) -> (r: Option<String>)
    requires
        2 * m + 1 < table@.len(),
    ensures
        match table_term(table@, vocab@, m as int) {
            Some(t) => r matches Some(s) && s@ == t,
            None => r is None,
        },
{
    let total = vocab.len();
    let table_len = table.len();
    assert(2 * m + 1 < table_len);
    let pos = table[2 * m];
    let end: u64 = if m == table.len() / 2 - 1 { total as u64 } else { table[2 * m + 2] };
    if end < pos || (end > pos && end > total as u64) {
        return None;
    }
    let bytes: Vec<u8> = if end == pos { Vec::new() } else { byte_range(vocab, pos as usize, end as usize) };
    assert(bytes@ =~= if end == pos { Seq::<u8>::empty() } else { vocab@.subrange(pos as int, end as int) });
    match str_from_utf8(bytes.as_slice()) {
        None => None,
        Some(text) => {
            proof {
                vstd::utf8::encode_utf8_decode_utf8(text@);
            }
            Some(text.to_owned())
        },
    }
}

/// Searches the table for `term` (see `vocab_search`).
fn search_table(table: &Vec<u64>, vocab: &Vec<u8>, term: &str) -> (r: Option<i64>)
    ensures
        r == vocab_search(table@, vocab@, term@),
{
    let table_len = table.len();
    let half = table_len / 2;
    if half == 0 {
        return None;
    }
    let mut i: usize = 0;
    let mut j: usize = half - 1;
    while i <= j
        invariant
            table_len == table@.len(),
            half == table@.len() / 2,
            j < half,
            vocab_search(table@, vocab@, term@) == search_from(table@, vocab@, term@, i as int, j as int),
        decreases j + 1 - i,
    {
        let m = i + (j - i) / 2;
        assert(m == (i + j) / 2);
        let t = match read_table_term(table, vocab, m) {
            None => return None,
            Some(t) => t,
        };
        if str_lt(term, t.as_str()) {
            proof {
                lemma_lex_order(term@, t@, term@);
            }
            if m == 0 {
                return None;
            }
            j = m - 1;
        } else if str_lt(t.as_str(), term) {
            proof {
                lemma_lex_order(t@, term@, t@);
            }
            i = m + 1;
        } else {
            proof {
                lemma_lex_order(term@, t@, term@);
            }
            return Some(table[2 * m + 1] as i64);
        }
    }
    Some(-1)
}

/// Where the vocabulary is cut into terms: at its start, at the position of
/// each even entry of the table after the first, and at its end.
pub open spec fn vocab_bounds(table: Seq<u64>, vocab_len: int) -> Seq<int> {
    let cuts = if table.len() >= 1 { ((table.len() - 1) / 2) as nat } else { 0nat };
    seq![0int] + Seq::new(cuts, |k: int| table[2 * k + 2] as int) + seq![vocab_len]
}

/// The vocabulary can be read as text and cut at its bounds: it is valid
/// UTF-8, and each bound lies, at a character boundary, between the one
/// before it and the end.
pub open spec fn vocab_readable(table: Seq<u64>, vocab: Seq<u8>) -> bool {
    let b = vocab_bounds(table, vocab.len() as int);
    &&& valid_utf8(vocab)
    &&& forall|k: int| 0 <= k < b.len() - 1 ==> b[k] <= #[trigger] b[k + 1] <= vocab.len() && is_char_boundary(vocab, b[k + 1])
}

/// The terms of the vocabulary, cut at its bounds.
pub open spec fn vocab_terms(table: Seq<u64>, vocab: Seq<u8>) -> Seq<Seq<char>> {
    let b = vocab_bounds(table, vocab.len() as int);
    Seq::new((b.len() - 1) as nat, |k: int| decode_utf8(vocab.subrange(b[k], b[k + 1])))
}

/// The terms in order, each only where it first occurs.
pub open spec fn first_occurrences(ts: Seq<Seq<char>>) -> Seq<Seq<char>>
    decreases ts.len(),
{
    if ts.len() == 0 {
        Seq::empty()
    } else {
        let p = first_occurrences(ts.drop_last());
        if p.contains(ts.last()) {
            p
        } else {
            p.push(ts.last())
        }
    }
}

/// The first occurrences hold each term once, and the same terms.
pub proof fn lemma_first_occurrences(ts: Seq<Seq<char>>)
    ensures
        first_occurrences(ts).no_duplicates(),
        first_occurrences(ts).to_set() == ts.to_set(),
    decreases ts.len(),
{
    if ts.len() > 0 {
        lemma_first_occurrences(ts.drop_last());
        let p = first_occurrences(ts.drop_last());
        lemma_push_contains(p, ts.last());
        lemma_push_contains(ts.drop_last(), ts.last());
        assert(ts =~= ts.drop_last().push(ts.last()));
        if !p.contains(ts.last()) {
            assert forall|a: int, b: int| 0 <= a < b < p.push(ts.last()).len() implies
                p.push(ts.last())[a] != p.push(ts.last())[b] by {
                if b == p.len() {
                    assert(p[a] == p.push(ts.last())[a]);
                }
            }
        }
        assert forall|x: Seq<char>| #[trigger] first_occurrences(ts).to_set().contains(x) <==> ts.to_set().contains(x) by {
            assert(first_occurrences(ts).to_set().contains(x) <==> first_occurrences(ts).contains(x));
            assert(ts.to_set().contains(x) <==> ts.contains(x));
            assert(p.to_set().contains(x) <==> p.contains(x));
            assert(ts.drop_last().to_set().contains(x) <==> ts.drop_last().contains(x));
        }
        assert(first_occurrences(ts).to_set() =~= ts.to_set());
    } else {
        assert(first_occurrences(ts).to_set() =~= ts.to_set());
    }
}

/// A character boundary of a text at or after another one is a boundary of
/// the text that starts at that other one.
proof fn lemma_boundary_in_suffix(bytes: Seq<u8>, a: int, c: int)
    requires
        valid_utf8(bytes),
        0 <= a <= c <= bytes.len(),
        is_char_boundary(bytes, a),
        is_char_boundary(bytes, c),
    ensures
        is_char_boundary(bytes.subrange(a, bytes.len() as int), c - a),
{
    let rest = bytes.subrange(a, bytes.len() as int);
    vstd::utf8::valid_utf8_split(bytes, a);
    if c < bytes.len() {
        vstd::utf8::is_char_boundary_iff_not_is_continuation_byte(rest, c - a);
        vstd::utf8::is_char_boundary_iff_not_is_continuation_byte(bytes, c);
        assert(rest[c - a] == bytes[c]);
    } else {
        vstd::utf8::is_char_boundary_start_end_of_seq(rest);
    }
}

/// A list of postings without their positions.
pub open spec fn without_positions(l: Seq<(u32, u32, u64, u64, u64, u64, Seq<u32>)>) -> Seq<(u32, u32, u64, u64, u64, u64)> {
    l.map_values(|x: (u32, u32, u64, u64, u64, u64, Seq<u32>)| (x.0, x.1, x.2, x.3, x.4, x.5))
}

/// The on-disk index, held as the bytes of its files: the vocabulary, the
/// document weights, the postings and the vocabulary table read from
/// `vocab_table.bin`.  Each score and weight that the files store as a
/// floating-point number is handed out as its bits.
pub struct DiskInvertedIndex {
    path: String,
    vocab_list: Vec<u8>,
    doc_weights: Vec<u8>,
    pub postings: Vec<u8>,
    vocab_table: Vec<u64>,
}

impl DiskInvertedIndex {
    /// The folder of the index.
    pub closed spec fn path_view(&self) -> Seq<char> {
        self.path@
    }

    /// The bytes of `vocab.bin`.
    pub closed spec fn vocab_bytes(&self) -> Seq<u8> {
        self.vocab_list@
    }

    /// The bytes of `doc_weights.bin`.
    pub closed spec fn weights_bytes(&self) -> Seq<u8> {
        self.doc_weights@
    }

    /// The bytes of `postings.bin`.
    pub closed spec fn postings_bytes(&self) -> Seq<u8> {
        self.postings@
    }

    /// The vocabulary table: for each term, its position in the vocabulary
    /// followed by that of its list in the postings.
    pub closed spec fn table(&self) -> Seq<u64> {
        self.vocab_table@
    }

    /// The result of a binary search of the vocabulary for `term`.
    pub open spec fn search(&self, term: Seq<char>) -> Option<i64> {
        vocab_search(self.table(), self.vocab_bytes(), term)
    }

    /// The list of `term` (with its positions when `with_positions`):
    /// `Err` when the search gives a negative position, `None` where
    /// reading panics.
    #[verifier::opaque]
    pub open spec fn postings_of(&self, term: Seq<char>, with_positions: bool)
        -> Option<Result<Seq<(u32, u32, u64, u64, u64, u64, Seq<u32>)>, ()>>
    {
        match self.search(term) {
            None => None,
            Some(p) => if p >= 0 {
                match postings_at(self.postings_bytes(), p as int, with_positions) {
                    Some(l) => Some(Ok(l)),
                    None => None,
                }
            } else {
                Some(Err(()))
            },
        }
    }

    /// The number of documents of `term`: zero when the search finds no
    /// entry, else the four bytes at its list's position.
    #[verifier::opaque]
    pub open spec fn document_frequency_of(&self, term: Seq<char>) -> Option<u32> {
        match self.search(term) {
            None => None,
            Some(p) => if p == -1 {
                Some(0)
            } else {
                let at = (p as u64) as int;
                if at + 4 > self.postings_bytes().len() {
                    None
                } else {
                    Some(be_value(self.postings_bytes().subrange(at, at + 4)) as u32)
                }
            },
        }
    }

    /// The total frequency of `term`: zero when the search finds no entry.
    #[verifier::opaque]
    pub open spec fn term_frequency_of(&self, term: Seq<char>) -> Option<u32> {
        match self.search(term) {
            None => None,
            Some(p) => if p == -1 {
                Some(0)
            } else {
                match term_frequency_at(self.postings_bytes(), (p as u64) as int) {
                    Some(n) => Some(n as u32),
                    None => None,
                }
            },
        }
    }

    /// The sum of the total frequencies of `ts`; `None` where reading one
    /// panics or the sum goes beyond `u32`.
    pub open spec fn total_frequency(&self, ts: Seq<Seq<char>>) -> Option<nat>
        decreases ts.len(),
    {
        if ts.len() == 0 {
            Some(0)
        } else {
            match (self.total_frequency(ts.drop_last()), self.term_frequency_of(ts.last())) {
                (Some(a), Some(b)) => if a + b > u32::MAX {
                    None
                } else {
                    Some((a + b) as nat)
                },
                _ => None,
            }
        }
    }

    /// The terms of `ts` whose list (read without positions) has a posting
    /// of document `doc_id`; `None` where reading a list panics or gives
    /// `Err`.
    pub open spec fn terms_in_document(&self, ts: Seq<Seq<char>>, doc_id: u32) -> Option<Seq<Seq<char>>>
        decreases ts.len(),
    {
        if ts.len() == 0 {
            Some(Seq::empty())
        } else {
            match (self.terms_in_document(ts.drop_last(), doc_id), self.postings_of(ts.last(), false)) {
                (Some(a), Some(Ok(l))) => Some(if exists|i: int| 0 <= i < l.len() && (#[trigger] l[i]).0 == doc_id {
                    a.push(ts.last())
                } else {
                    a
                }),
                _ => None,
            }
        }
    }

    /// An index over the bytes of its files; `vocab_table_file` holds the
    /// bytes of `vocab_table.bin`, which must hold the four-byte count.
    pub fn new(path: &str, vocab_list: Vec<u8>, doc_weights: Vec<u8>, postings: Vec<u8>, vocab_table_file: &Vec<u8>) -> (index: DiskInvertedIndex)
        requires
            vocab_table_file@.len() >= 4,
        ensures
            index.path_view() == path@,
            index.vocab_bytes() == vocab_list@,
            index.weights_bytes() == doc_weights@,
            index.postings_bytes() == postings@,
            index.table() == vocab_table_spec(vocab_table_file@),
    {
        DiskInvertedIndex {
            path: path.to_owned(),
            vocab_list,
            doc_weights,
            postings,
            vocab_table: DiskInvertedIndex::read_vocab_table(vocab_table_file),
        }
    }

    /// The vocabulary table of the bytes of a `vocab_table.bin` file (see
    /// `vocab_table_spec`); the file must hold the four-byte count.
    pub fn read_vocab_table(bytes: &Vec<u8>) -> (table: Vec<u64>)
        requires
            bytes@.len() >= 4,
        ensures
            table@ == vocab_table_spec(bytes@),
    {
        let total = bytes.len();
        let count = (total - 4) / 8;
        let mut table: Vec<u64> = Vec::new();
        let mut k: usize = 0;
        while k < count
            invariant
                total == bytes@.len(),
                count == (total - 4) / 8,
                k <= count,
                table@ == vocab_table_spec(bytes@).take(k as int),
            decreases count - k,
        {
            assert(4 + 8 * k + 8 <= total) by (nonlinear_arith)
                requires k < count, count == (total - 4) / 8, total >= 4;
            let n = u64_at(bytes, 4 + 8 * k);
            table.push(n);
            assert(vocab_table_spec(bytes@).take(k + 1) =~= vocab_table_spec(bytes@).take(k as int).push(n));
            k = k + 1;
        }
        assert(vocab_table_spec(bytes@).take(count as int) =~= vocab_table_spec(bytes@));
        table
    }

    /// The folder of the index.
    pub fn get_path(&self) -> (p: String)
        ensures
            p@ == self.path_view(),
    {
        self.path.clone()
    }

    /// The number of terms of the table.
    pub fn get_term_count(&self) -> (n: u32)
        ensures
            n == (self.table().len() as u32) / 2,
    {
        (self.vocab_table.len() as u32) / 2
    }

    /// The binary search of the vocabulary for `term`; `None` where it
    /// panics (see `vocab_search`).
    pub fn try_binary_search_vocabulary(&self, term: &str) -> (r: Option<i64>)
        ensures
            r == self.search(term@),
    {
        search_table(&self.vocab_table, &self.vocab_list, term)
    }

    /// The postings position of `term`, or `-1` when the vocabulary lacks it.
    pub fn binary_search_vocabulary(&self, term: &str) -> (r: i64)
        requires
            self.search(term@) is Some,
        ensures
            Some(r) == self.search(term@),
    {
        match search_table(&self.vocab_table, &self.vocab_list, term) {
            Some(r) => r,
            None => -1,
        }
    }

    /// Whether the vocabulary holds `term`.
    pub fn contains_term(&self, term: &str) -> (b: bool)
        requires
            self.search(term@) is Some,
        ensures
            b == (self.search(term@)->0 != -1),
    {
        self.binary_search_vocabulary(term) != -1
    }

    /// The list at `postings_position`, with positions.
    pub fn read_postings_from_file(&self, postings_position: i64) -> (l: Vec<DiskPosting>)
        requires
            postings_at(self.postings_bytes(), (postings_position as u64) as int, true) is Some,
        ensures
            Some(l@.map_values(|x: DiskPosting| posting_view(x))) == postings_at(self.postings_bytes(), (postings_position as u64) as int, true),
    {
        match read_postings_at(&self.postings, postings_position as u64, true) {
            Some(l) => l,
            None => Vec::new(),
        }
    }

    /// The list at `postings_position`, without positions.
    pub fn read_postings_from_file_no_positions(&self, postings_position: i64) -> (l: Vec<(u32, u32, u64, u64, u64, u64)>)
        requires
            postings_at(self.postings_bytes(), (postings_position as u64) as int, false) is Some,
        ensures
            l@ == without_positions(postings_at(self.postings_bytes(), (postings_position as u64) as int, false)->0),
    {
        match read_postings_at(&self.postings, postings_position as u64, false) {
            Some(l) => drop_positions(&l),
            None => Vec::new(),
        }
    }

    /// The list of `term` with positions, `Err` when the search gives a
    /// negative position; `None` where reading panics.
    pub fn try_get_postings(&self, term: &str) -> (r: Option<Result<Vec<DiskPosting>, &'static str>>)
        ensures
            match self.postings_of(term@, true) {
                None => r is None,
                Some(Err(())) => r matches Some(Err(_)),
                Some(Ok(l)) => r matches Some(Ok(v)) && v@.map_values(|x: DiskPosting| posting_view(x)) == l,
            },
    {
        reveal(DiskInvertedIndex::postings_of);
        match search_table(&self.vocab_table, &self.vocab_list, term) {
            None => None,
            Some(p) => if p >= 0 {
                match read_postings_at(&self.postings, p as u64, true) {
                    Some(l) => Some(Ok(l)),
                    None => None,
                }
            } else {
                Some(Err("Postings position is less than 0."))
            },
        }
    }

    /// The list of `term` with positions, `Err` when the search gives a
    /// negative position.
    pub fn get_postings(&self, term: &str) -> (r: Result<Vec<DiskPosting>, &'static str>)
        requires
            self.postings_of(term@, true) is Some,
        ensures
            match self.postings_of(term@, true) {
                Some(Ok(l)) => r matches Ok(v) && v@.map_values(|x: DiskPosting| posting_view(x)) == l,
                _ => r is Err,
            },
    {
        reveal(DiskInvertedIndex::postings_of);
        match self.try_get_postings(term) {
            Some(r) => r,
            None => Err("Postings position is less than 0."),
        }
    }

    /// The list of `term` without positions, `Err` when the search gives a
    /// negative position; `None` where reading panics.
    pub fn try_get_postings_no_positions(&self, term: &str) -> (r: Option<Result<Vec<(u32, u32, u64, u64, u64, u64)>, &'static str>>)
        ensures
            match self.postings_of(term@, false) {
                None => r is None,
                Some(Err(())) => r matches Some(Err(_)),
                Some(Ok(l)) => r matches Some(Ok(v)) && v@ == without_positions(l),
            },
    {
        reveal(DiskInvertedIndex::postings_of);
        match search_table(&self.vocab_table, &self.vocab_list, term) {
            None => None,
            Some(p) => if p >= 0 {
                match read_postings_at(&self.postings, p as u64, false) {
                    Some(l) => Some(Ok(drop_positions(&l))),
                    None => None,
                }
            } else {
                Some(Err("Postings position is less than 0."))
            },
        }
    }

    /// The list of `term` without positions, `Err` when the search gives a
    /// negative position.
    pub fn get_postings_no_positions(&self, term: &str) -> (r: Result<Vec<(u32, u32, u64, u64, u64, u64)>, &'static str>)
        requires
            self.postings_of(term@, false) is Some,
        ensures
            match self.postings_of(term@, false) {
                Some(Ok(l)) => r matches Ok(v) && v@ == without_positions(l),
                _ => r is Err,
            },
    {
        reveal(DiskInvertedIndex::postings_of);
        match self.try_get_postings_no_positions(term) {
            Some(r) => r,
            None => Err("Postings position is less than 0."),
        }
    }

    /// The number of documents of `term` (see `document_frequency_of`);
    /// `None` where reading panics.
    pub fn try_get_document_frequency(&self, term: &str) -> (r: Option<u32>)
        ensures
            r == self.document_frequency_of(term@),
    {
        reveal(DiskInvertedIndex::document_frequency_of);
        match search_table(&self.vocab_table, &self.vocab_list, term) {
            None => None,
            Some(p) => if p == -1 {
                Some(0)
            } else {
                let at = p as u64;
                let total = self.postings.len();
                if at > total as u64 || total as u64 - at < 4 {
                    None
                } else {
                    Some(u32_at(&self.postings, at as usize))
                }
            },
        }
    }

    /// The number of documents of `term`.
    pub fn get_document_frequency(&self, term: &str) -> (n: u32)
        requires
            self.document_frequency_of(term@) is Some,
        ensures
            Some(n) == self.document_frequency_of(term@),
    {
        match self.try_get_document_frequency(term) {
            Some(n) => n,
            None => 0,
        }
    }

    /// The total frequency of `term` (see `term_frequency_of`); `None` where
    /// reading panics.
    pub fn try_get_term_frequency(&self, term: &str) -> (r: Option<u32>)
        ensures
            r == self.term_frequency_of(term@),
    {
        reveal(DiskInvertedIndex::term_frequency_of);
        match search_table(&self.vocab_table, &self.vocab_list, term) {
            None => None,
            Some(p) => if p == -1 {
                Some(0)
            } else {
                frequency_at(&self.postings, p as u64)
            },
        }
    }

    /// The total frequency of `term`.
    pub fn get_term_frequency(&self, term: &str) -> (n: u32)
        requires
            self.term_frequency_of(term@) is Some,
        ensures
            Some(n) == self.term_frequency_of(term@),
    {
        match self.try_get_term_frequency(term) {
            Some(n) => n,
            None => 0,
        }
    }

    /// The weights of document `doc_id` (see `weights_at`); `None` where
    /// reading panics.
    pub fn try_get_document_weights(&self, doc_id: u32) -> (r: Option<(u64, u64, u64, u64, u64)>)
        ensures
            r == weights_at(self.weights_bytes(), doc_id),
    {
        let total = self.doc_weights.len();
        let off = doc_id as u64 * 32 + 8;
        if total < 8 || off > total as u64 || total as u64 - off < 32 {
            return None;
        }
        let o = off as usize;
        Some((
            u64_at(&self.doc_weights, 0),
            u64_at(&self.doc_weights, o),
            u64_at(&self.doc_weights, o + 8),
            u64_at(&self.doc_weights, o + 16),
            u64_at(&self.doc_weights, o + 24),
        ))
    }

    /// The weights of document `doc_id`: the bits of the average document
    /// length, the bits of its weight, its length, its size in bytes and
    /// the bits of its average term frequency.
    pub fn read_doc_weights_from_file(&self, doc_id: u32) -> (w: (u64, u64, u64, u64, u64))
        requires
            weights_at(self.weights_bytes(), doc_id) is Some,
        ensures
            Some(w) == weights_at(self.weights_bytes(), doc_id),
    {
        match self.try_get_document_weights(doc_id) {
            Some(w) => w,
            None => (0, 0, 0, 0, 0),
        }
    }

    /// The terms of the vocabulary (see `vocab_terms`), each once; `None`
    /// where reading them panics (see `vocab_readable`).
    #[verifier::rlimit(40)]
    pub fn try_get_vocab(&self) -> (r: Option<Vec<String>>)
        ensures
            r is Some <==> vocab_readable(self.table(), self.vocab_bytes()),
            r matches Some(v) ==> string_views(v@) == first_occurrences(vocab_terms(self.table(), self.vocab_bytes())),
    {
        let ghost b = vocab_bounds(self.table(), self.vocab_bytes().len() as int);
        let ghost terms = vocab_terms(self.table(), self.vocab_bytes());
        let contents = match str_from_utf8(self.vocab_list.as_slice()) {
            None => return None,
            Some(c) => c,
        };
        let total = self.vocab_list.len();
        let tl = self.vocab_table.len();
        let cuts: usize = if tl >= 1 { (tl - 1) / 2 } else { 0 };
        let mut result: Vec<String> = Vec::new();
        let mut second: usize = 0;
        let mut k: usize = 0;
        assert(string_views(result@) =~= first_occurrences(terms.take(0)));
        while k <= cuts
            invariant
                k <= cuts + 1,
                tl == self.table().len(),
                cuts == (if tl >= 1 { (tl - 1) / 2 } else { 0 }),
                total == self.vocab_bytes().len(),
                encode_utf8(contents@) == self.vocab_bytes(),
                valid_utf8(self.vocab_bytes()),
                b == vocab_bounds(self.table(), self.vocab_bytes().len() as int),
                terms == vocab_terms(self.table(), self.vocab_bytes()),
                b.len() == cuts + 2,
                k <= cuts ==> second as int == b[k as int],
                forall|q: int| 0 <= q < k ==> b[q] <= #[trigger] b[q + 1] <= self.vocab_bytes().len()
                    && is_char_boundary(self.vocab_bytes(), b[q + 1]),
                string_views(result@) == first_occurrences(terms.take(k as int)),
            decreases cuts + 1 - k,
        {
            let next: u64 = if k < cuts { self.vocab_table[2 * k + 2] } else { total as u64 };
            assert(next as int == b[k + 1]);
            if (second as u64) > next || next > total as u64 {
                proof {
                    assert(!(b[k as int] <= b[k + 1] <= self.vocab_bytes().len()));
                }
                return None;
            }
            let c = next as usize;
            if !contents.is_char_boundary(second) || !contents.is_char_boundary(c) {
                proof {
                    if k > 0 {
                        let q: int = k - 1;
                        assert(is_char_boundary(self.vocab_bytes(), b[q + 1]));
                        assert(q + 1 == k as int);
                    } else {
                        assert(is_char_boundary(self.vocab_bytes(), 0));
                    }
                    assert(!is_char_boundary(self.vocab_bytes(), b[k + 1]));
                }
                return None;
            }
            let (_, rest) = contents.split_at(second);
            proof {
                vstd::utf8::encode_utf8_decode_utf8(rest@);
            }
            assert(encode_utf8(rest@) =~= self.vocab_bytes().subrange(second as int, total as int));
            proof {
                lemma_boundary_in_suffix(self.vocab_bytes(), second as int, c as int);
            }
            let (piece, _) = rest.split_at(c - second);
            let term = piece.to_owned();
            proof {
                vstd::utf8::encode_utf8_decode_utf8(term@);
                assert(encode_utf8(piece@) =~= self.vocab_bytes().subrange(second as int, c as int));
                assert(term@ == terms[k as int]);
            }
            let ghost before = string_views(result@);
            proof {
                assert(terms.take(k + 1).drop_last() =~= terms.take(k as int));
                assert(terms.take(k + 1).last() == terms[k as int]);
            }
            if !holds_term(&result, &term) {
                result.push(term);
                assert(string_views(result@) =~= before.push(terms[k as int]));
            }
            second = c;
            k = k + 1;
        }
        assert(terms.take(terms.len() as int) =~= terms);
        Some(result)
    }

    /// The terms of the vocabulary, each once.
    pub fn get_vocab(&self) -> (v: Vec<String>)
        requires
            vocab_readable(self.table(), self.vocab_bytes()),
        ensures
            string_views(v@) == first_occurrences(vocab_terms(self.table(), self.vocab_bytes())),
    {
        match self.try_get_vocab() {
            Some(v) => v,
            None => Vec::new(),
        }
    }

    /// The sum of the total frequencies of the terms of the vocabulary;
    /// `None` where the files cannot be read or the sum overflows `u32`.
    pub fn try_get_total_term_frequency(&self) -> (r: Option<u32>)
        ensures
            r == (if vocab_readable(self.table(), self.vocab_bytes()) {
                match self.total_frequency(first_occurrences(vocab_terms(self.table(), self.vocab_bytes()))) {
                    Some(n) => Some(n as u32),
                    None => None,
                }
            } else {
                None
            }),
    {
        let vocabulary = match self.try_get_vocab() {
            None => return None,
            Some(v) => v,
        };
        let ghost ts = string_views(vocabulary@);
        let mut total: u32 = 0;
        let mut i: usize = 0;
        while i < vocabulary.len()
            invariant
                i <= vocabulary@.len(),
                ts == string_views(vocabulary@),
                vocab_readable(self.table(), self.vocab_bytes()),
                ts == first_occurrences(vocab_terms(self.table(), self.vocab_bytes())),
                self.total_frequency(ts.take(i as int)) == Some(total as nat),
            decreases vocabulary@.len() - i,
        {
            assert(ts.take(i + 1).drop_last() =~= ts.take(i as int));
            assert(ts.take(i + 1).last() == vocabulary@[i as int]@);
            let f = match self.try_get_term_frequency(vocabulary[i].as_str()) {
                None => {
                    proof {
                        lemma_total_frequency_none(self, ts, i as int + 1);
                    }
                    return None;
                },
                Some(f) => f,
            };
            if f > 4294967295u32 - total {
                proof {
                    lemma_total_frequency_none(self, ts, i as int + 1);
                }
                return None;
            }
            total = total + f;
            i = i + 1;
        }
        assert(ts.take(vocabulary@.len() as int) =~= ts);
        Some(total)
    }

    /// The sum of the total frequencies of the terms of the vocabulary (see
    /// `try_get_total_term_frequency`); the files must be readable and the
    /// sum must fit in a `u32`.
    pub fn get_total_term_frequency(&self) -> (r: u32)
        requires
            vocab_readable(self.table(), self.vocab_bytes()),
            self.total_frequency(first_occurrences(vocab_terms(self.table(), self.vocab_bytes()))) is Some,
        ensures
            self.total_frequency(first_occurrences(vocab_terms(self.table(), self.vocab_bytes()))) == Some(r as nat),
    {
        match self.try_get_total_term_frequency() {
            Some(n) => n,
            None => 0,
        }
    }

    /// The terms of the vocabulary whose list has a posting of document
    /// `doc_id`, each once; `None` where the files cannot be read.
    pub fn try_get_terms_for_document(&self, doc_id: u32) -> (r: Option<Vec<String>>)
        ensures
            match r {
                Some(v) => vocab_readable(self.table(), self.vocab_bytes())
                    && self.terms_in_document(first_occurrences(vocab_terms(self.table(), self.vocab_bytes())), doc_id)
                    == Some(string_views(v@)),
                None => !vocab_readable(self.table(), self.vocab_bytes())
                    || self.terms_in_document(first_occurrences(vocab_terms(self.table(), self.vocab_bytes())), doc_id) is None,
            },
    {
        let vocabulary = match self.try_get_vocab() {
            None => return None,
            Some(v) => v,
        };
        let ghost ts = string_views(vocabulary@);
        let mut results: Vec<String> = Vec::new();
        let mut i: usize = 0;
        assert(string_views(results@) =~= Seq::<Seq<char>>::empty());
        while i < vocabulary.len()
            invariant
                i <= vocabulary@.len(),
                ts == string_views(vocabulary@),
                vocab_readable(self.table(), self.vocab_bytes()),
                ts == first_occurrences(vocab_terms(self.table(), self.vocab_bytes())),
                self.terms_in_document(ts.take(i as int), doc_id) == Some(string_views(results@)),
            decreases vocabulary@.len() - i,
        {
            assert(ts.take(i + 1).drop_last() =~= ts.take(i as int));
            assert(ts.take(i + 1).last() == vocabulary@[i as int]@);
            let postings = match self.try_get_postings_no_positions(vocabulary[i].as_str()) {
                Some(Ok(l)) => l,
                _ => {
                    proof {
                        lemma_terms_in_document_none(self, ts, i as int + 1, doc_id);
                    }
                    return None;
                },
            };
            let mut found = false;
            let mut k: usize = 0;
            while k < postings.len()
                invariant
                    k <= postings@.len(),
                    found == exists|q: int| 0 <= q < k && (#[trigger] postings@[q]).0 == doc_id,
                decreases postings@.len() - k,
            {
                if postings[k].0 == doc_id {
                    found = true;
                }
                k = k + 1;
            }
            let ghost before = string_views(results@);
            if found {
                results.push(vocabulary[i].clone());
                assert(string_views(results@) =~= before.push(vocabulary@[i as int]@));
            }
            proof {
                let l = self.postings_of(vocabulary@[i as int]@, false)->Some_0->Ok_0;
                assert(postings@ == without_positions(l));
                assert(found == exists|q: int| 0 <= q < l.len() && (#[trigger] l[q]).0 == doc_id) by {
                    if found {
                        let q = choose|q: int| 0 <= q < postings@.len() && (#[trigger] postings@[q]).0 == doc_id;
                        assert(l[q].0 == postings@[q].0);
                    }
                    if exists|q: int| 0 <= q < l.len() && (#[trigger] l[q]).0 == doc_id {
                        let q = choose|q: int| 0 <= q < l.len() && (#[trigger] l[q]).0 == doc_id;
                        assert(postings@[q].0 == l[q].0);
                    }
                }
            }
            i = i + 1;
        }
        assert(ts.take(vocabulary@.len() as int) =~= ts);
        Some(results)
    }

    /// The terms of the vocabulary whose list has a posting of document
    /// `doc_id`, each once (see `try_get_terms_for_document`); the files
    /// must be readable.
    pub fn get_terms_for_document(&self, doc_id: u32) -> (r: Vec<String>)
        requires
            vocab_readable(self.table(), self.vocab_bytes()),
            self.terms_in_document(first_occurrences(vocab_terms(self.table(), self.vocab_bytes())), doc_id) is Some,
        ensures
            self.terms_in_document(first_occurrences(vocab_terms(self.table(), self.vocab_bytes())), doc_id)
                == Some(string_views(r@)),
    {
        match self.try_get_terms_for_document(doc_id) {
            Some(v) => v,
            None => Vec::new(),
        }
    }

    /// The weights of document `doc_id`; every document id is taken.
    pub fn get_document_weights(&self, doc_id: u32) -> (r: Result<(u64, u64, u64, u64, u64), &'static str>)
        requires
            weights_at(self.weights_bytes(), doc_id) is Some,
        ensures
            r matches Ok(w) && Some(w) == weights_at(self.weights_bytes(), doc_id),
    {
        Ok(self.read_doc_weights_from_file(doc_id))
    }

    /// The number of documents that the id file names, from the text of the
    /// file: `Err` when it names none; `None` where the text is not a JSON
    /// object from document ids to file names.  A count beyond `u32::MAX`
    /// wraps.
    pub fn try_get_num_documents(id_file_contents: &str) -> (r: Option<Result<u32, &'static str>>)
        ensures
            match parsed_id_file(id_file_contents@) {
                None => r is None,
                Some(m) => if m.len() > 0 {
                    r == Some(Ok::<u32, &'static str>((m.len() % 0x1_0000_0000) as u32))
                } else {
                    r matches Some(Err(_))
                },
            },
    {
        match parse_id_file(id_file_contents) {
            None => None,
            Some(_) => Some(DiskInvertedIndex::get_num_documents(id_file_contents)),
        }
    }

    /// The number of documents that the id file names (see
    /// `try_get_num_documents`); the text must be an id file.
    pub fn get_num_documents(id_file_contents: &str) -> (r: Result<u32, &'static str>)
        requires
            parsed_id_file(id_file_contents@) is Some,
        ensures
            parsed_id_file(id_file_contents@) matches Some(m) && if m.len() > 0 {
                r == Ok::<u32, &'static str>((m.len() % 0x1_0000_0000) as u32)
            } else {
                r is Err
            },
    {
        broadcast use vstd::std_specs::hash::group_hash_axioms;
        let id_file = match parse_id_file(id_file_contents) {
            None => return Err("Error: No documents found"),
            Some(m) => m,
        };
        let num_documents = id_file.len();
        assert(num_documents == id_file@.len());
        assert(id_file@.map_values(|s: String| s@).dom() =~= id_file@.dom());
        if num_documents > 0 {
            let n = ((num_documents as u64) % 0x1_0000_0000u64) as u32;
            Ok(n)
        } else {
            Err("Error: No documents found")
        }
    }
}

/// What `serde_json::from_str` makes of the text of an id file: the map
/// from document ids to file names that the JSON object holds, or `None`
/// when the text is not such an object.
pub uninterp spec fn parsed_id_file(text: Seq<char>) -> Option<Map<u32, Seq<char>>>;

/// `serde_json::from_str::<HashMap<u32, String>>`: the id file's map, read
/// from JSON text (see `parsed_id_file`); `None` when serde_json refuses
/// the text.
#[verifier::external_body]
fn parse_id_file(text: &str) -> (r: Option<HashMap<u32, String>>)
    ensures
        match r {
            Some(m) => parsed_id_file(text@) == Some(m@.map_values(|s: String| s@)),
            None => parsed_id_file(text@) is None,
        },
{
    match serde_json::from_str::<HashMap<u32, String>>(text) {
        Ok(m) => Some(m),
        Err(_) => None,
    }
}

/// Once a prefix of the terms cannot be summed, neither can all of them.
proof fn lemma_total_frequency_none(index: &DiskInvertedIndex, ts: Seq<Seq<char>>, k: int)
    requires
        0 <= k <= ts.len(),
        index.total_frequency(ts.take(k)) is None,
    ensures
        index.total_frequency(ts) is None,
    decreases ts.len() - k,
{
    if k < ts.len() {
        assert(ts.take(k + 1).drop_last() =~= ts.take(k));
        lemma_total_frequency_none(index, ts, k + 1);
    } else {
        assert(ts.take(k) =~= ts);
    }
}

/// Once a prefix of the terms cannot be read, neither can all of them.
proof fn lemma_terms_in_document_none(index: &DiskInvertedIndex, ts: Seq<Seq<char>>, k: int, doc_id: u32)
    requires
        0 <= k <= ts.len(),
        index.terms_in_document(ts.take(k), doc_id) is None,
    ensures
        index.terms_in_document(ts, doc_id) is None,
    decreases ts.len() - k,
{
    if k < ts.len() {
        assert(ts.take(k + 1).drop_last() =~= ts.take(k));
        lemma_terms_in_document_none(index, ts, k + 1, doc_id);
    } else {
        assert(ts.take(k) =~= ts);
    }
}

/// The postings without their positions.
fn drop_positions(l: &Vec<DiskPosting>) -> (r: Vec<(u32, u32, u64, u64, u64, u64)>)
    ensures
        r@ == without_positions(l@.map_values(|x: DiskPosting| posting_view(x))),
{
    let ghost lv = l@.map_values(|x: DiskPosting| posting_view(x));
    let mut r: Vec<(u32, u32, u64, u64, u64, u64)> = Vec::new();
    let mut i: usize = 0;
    while i < l.len()
        invariant
            i <= l@.len(),
            lv == l@.map_values(|x: DiskPosting| posting_view(x)),
            r@ == without_positions(lv.take(i as int)),
        decreases l@.len() - i,
    {
        let p = &l[i];
        r.push((p.0, p.1, p.2, p.3, p.4, p.5));
        assert(without_positions(lv.take(i + 1)) =~= without_positions(lv.take(i as int)).push((p.0, p.1, p.2, p.3, p.4, p.5)));
        i = i + 1;
    }
    assert(lv.take(l@.len() as int) =~= lv);
    r
}


/// The sum of the frequencies of a list of postings.
pub open spec fn freq_sum(l: Seq<(u32, u32, u64, u64, u64, u64)>) -> nat
    decreases l.len(),
{
    if l.len() == 0 {
        0
    } else {
        l[0].1 as nat + freq_sum(l.drop_first())
    }
}

proof fn lemma_vb_within(bytes: Seq<u8>, p: int)
    ensures
        vb_at(bytes, p) is Some ==> 0 <= p <= bytes.len(),
{
}

proof fn lemma_positions_skip(bytes: Seq<u8>, p: int, count: nat, acc: nat)
    ensures
        read_positions(bytes, p, count, acc) matches Some((ps, e)) ==> skip_numbers(bytes, p, count) == Some(e),
    decreases count,
{
    if count > 0 {
        if let Some((g, c)) = vb_at(bytes, p) {
            lemma_positions_skip(bytes, p + c, (count - 1) as nat, acc + g);
        }
    }
}

proof fn lemma_without_positions_cons(
    rec: (u32, u32, u64, u64, u64, u64, Seq<u32>),
    rest: Seq<(u32, u32, u64, u64, u64, u64, Seq<u32>)>,
)
    ensures
        without_positions(seq![rec] + rest).len() == rest.len() + 1,
        without_positions(seq![rec] + rest)[0] == (rec.0, rec.1, rec.2, rec.3, rec.4, rec.5),
        without_positions(seq![rec] + rest).drop_first() == without_positions(rest),
{
    assert(without_positions(seq![rec] + rest).drop_first() =~= without_positions(rest));
}

proof fn lemma_records_without_positions(bytes: Seq<u8>, p: int, count: nat, doc: nat)
    ensures
        read_records(bytes, p, count, doc, true) matches Some(l) ==> (read_records(bytes, p, count, doc, false) matches Some(l2)
            && without_positions(l2) == without_positions(l)),
    decreases count,
{
    if count > 0 {
        if let Some((rec, q)) = read_record(bytes, p, doc, true) {
            let (gap, c) = vb_at(bytes, p)->0;
            let (tf, c2) = vb_at(bytes, p + c + 32)->0;
            lemma_positions_skip(bytes, p + c + 32 + c2, tf, 0);
            let rec2 = (read_record(bytes, p, doc, false)->0).0;
            assert(read_record(bytes, p, doc, false) == Some((rec2, q)));
            lemma_records_without_positions(bytes, q, (count - 1) as nat, rec.0 as nat);
            if let Some(rest) = read_records(bytes, q, (count - 1) as nat, rec.0 as nat, true) {
                let rest2 = read_records(bytes, q, (count - 1) as nat, rec.0 as nat, false)->0;
                lemma_without_positions_cons(rec, rest);
                lemma_without_positions_cons(rec2, rest2);
                let w1 = without_positions(seq![rec2] + rest2);
                let w2 = without_positions(seq![rec] + rest);
                assert(without_positions(rest).len() == rest.len());
                assert(without_positions(rest2).len() == rest2.len());
                assert(w1.len() == w2.len());
                assert(rec2.0 == rec.0 && rec2.1 == rec.1 && rec2.2 == rec.2 && rec2.3 == rec.3 && rec2.4 == rec.4 && rec2.5 == rec.5);
                assert forall|i: int| 0 <= i < w1.len() implies w1[i] == w2[i] by {
                    if i > 0 {
                        assert(w1[i] == w1.drop_first()[i - 1]);
                        assert(w2[i] == w2.drop_first()[i - 1]);
                    }
                }
                assert(w1 =~= w2);
            }
        }
    }
}

proof fn lemma_sum_records(bytes: Seq<u8>, p: int, count: nat, doc: nat, acc: nat)
    ensures
        read_records(bytes, p, count, doc, false) matches Some(l) ==> (acc + freq_sum(without_positions(l)) <= u32::MAX
            ==> sum_frequencies(bytes, p, count, doc, acc) == Some(acc + freq_sum(without_positions(l)))),
        sum_frequencies(bytes, p, count, doc, acc) matches Some(n) ==> (read_records(bytes, p, count, doc, false) matches Some(l)
            && n == acc + freq_sum(without_positions(l))),
        acc <= u32::MAX ==> (sum_frequencies(bytes, p, count, doc, acc) matches Some(n) ==> n <= u32::MAX),
    decreases count,
{
    if count == 0 {
        assert(without_positions(Seq::<(u32, u32, u64, u64, u64, u64, Seq<u32>)>::empty()).len() == 0);
    } else if let Some((gap, c)) = vb_at(bytes, p) {
        let q = p + c;
        lemma_vb_within(bytes, q + 32);
        lemma_vb_count(bytes, q + 32);
        if let Some((tf, c2)) = vb_at(bytes, q + 32) {
            let d = doc + gap;
            lemma_sum_records(bytes, skip_numbers(bytes, q + 32 + c2, tf)->0, (count - 1) as nat, d, acc + tf);
            if let Some(e) = skip_numbers(bytes, q + 32 + c2, tf) {
                if d <= u32::MAX {
                    let rec = (read_record(bytes, p, doc, false)->0).0;
                    assert(read_record(bytes, p, doc, false) == Some((rec, e)));
                    assert(rec.0 as nat == d);
                    assert(rec.1 as nat == tf);
                    if let Some(rest) = read_records(bytes, e, (count - 1) as nat, d, false) {
                        lemma_without_positions_cons(rec, rest);
                    }
                }
            }
        }
    }
}

/// Reading a list without positions gives what reading it with positions
/// gives, but for the positions: wherever the list with positions can be
/// read, the list without them can be too, and they agree on everything
/// else; and both are `Err` for the same terms.
pub proof fn lemma_postings_without_positions(index: &DiskInvertedIndex, term: Seq<char>)
    ensures
        index.postings_of(term, true) matches Some(Ok(l)) ==> (index.postings_of(term, false) matches Some(Ok(l2))
            && without_positions(l2) == without_positions(l)),
        index.postings_of(term, true) == Some(Err::<Seq<(u32, u32, u64, u64, u64, u64, Seq<u32>)>, ()>(()))
            <==> index.postings_of(term, false) == Some(Err::<Seq<(u32, u32, u64, u64, u64, u64, Seq<u32>)>, ()>(())),
{
    reveal(DiskInvertedIndex::postings_of);
    let b = index.postings_bytes();
    if let Some(p) = index.search(term) {
        if p >= 0 && p as int + 4 <= b.len() {
            lemma_records_without_positions(b, p as int + 4, be_value(b.subrange(p as int, p as int + 4)), 0);
        }
    }
}

/// The total frequency of a term whose search finds its list is the sum of
/// the frequencies of the postings of that list: where the frequency can be
/// read, the list can be read and sums to it; where the list can be read
/// and its sum fits in a `u32`, the frequency is that sum.
pub proof fn lemma_term_frequency_sums_postings(index: &DiskInvertedIndex, term: Seq<char>)
    requires
        index.search(term) matches Some(p) && p >= 0,
    ensures
        index.term_frequency_of(term) matches Some(n) ==> (index.postings_of(term, false) matches Some(Ok(l))
            && n == freq_sum(without_positions(l))),
        index.postings_of(term, false) matches Some(Ok(l)) ==> (freq_sum(without_positions(l)) <= u32::MAX
            ==> index.term_frequency_of(term) == Some(freq_sum(without_positions(l)) as u32)),
        index.postings_of(term, true) matches Some(Ok(l)) ==> (freq_sum(without_positions(l)) <= u32::MAX
            ==> index.term_frequency_of(term) == Some(freq_sum(without_positions(l)) as u32)),
{
    reveal(DiskInvertedIndex::postings_of);
    reveal(DiskInvertedIndex::term_frequency_of);
    lemma_postings_without_positions(index, term);
    let b = index.postings_bytes();
    let p = index.search(term)->0;
    assert((p as u64) as int == p as int);
    if p as int + 4 <= b.len() {
        let count = be_value(b.subrange(p as int, p as int + 4));
        lemma_sum_records(b, p as int + 4, count, 0, 0);
    }
}

} // verus!
