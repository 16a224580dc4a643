//! The writer of an on-disk index: the bytes of the vocabulary, the
//! document ids, the postings with their vocabulary table, and the document
//! weights, for the folder it writes into.
use vstd::prelude::*;
use vstd::utf8::{
    decode_utf8, encode_utf8, encode_utf8_decode_utf8, encode_utf8_valid_utf8, is_char_boundary,
    is_char_boundary_iff_not_is_continuation_byte, is_char_boundary_start_end_of_seq, valid_utf8,
    valid_utf8_concat,
};
use byteorder::{BigEndian, ByteOrder};
use crate::index::positional_inverted_index::{PositionalInvertedIndex, PositionalPosting, postings_view};
use crate::text::ref_views;
use crate::index::disk_inverted_index::{
    be_value, postings_at, read_positions, read_record, read_records, u64_spec, vb_at, vb_window, weights_at, search_from, table_term, vocab_readable, vocab_search, vocab_table_spec, vocab_terms,
};
use crate::text::{lemma_lex_order, lex_lt};
use crate::index::variable_byte::{encode, lemma_decode_encode, vb_encoding};

verus! {

/// `n` in `width` bytes, most significant first (taken modulo 256 to the
/// `width`).
#[verifier::opaque]
pub open spec fn be_encode(n: nat, width: nat) -> Seq<u8>
    decreases width,
{
    if width == 0 {
        Seq::empty()
    } else {
        be_encode(n / 256, (width - 1) as nat).push((n % 256) as u8)
    }
}

/// `BigEndian::write_u32` of byteorder into a buffer of four bytes: `n`,
/// most significant byte first.
#[verifier::external_body]
fn be_u32_bytes(n: u32) -> (b: Vec<u8>)
    ensures
        b@ == be_encode(n as nat, 4),
{
    let mut buf = vec![0u8; 4];
    BigEndian::write_u32(&mut buf, n);
    buf
}

/// `BigEndian::write_u64` of byteorder into a buffer of eight bytes: `n`,
/// most significant byte first.
#[verifier::external_body]
fn be_u64_bytes(n: u64) -> (b: Vec<u8>)
    ensures
        b@ == be_encode(n as nat, 8),
{
    let mut buf = vec![0u8; 8];
    BigEndian::write_u64(&mut buf, n);
    buf
}

/// Appends the bytes of `b` to `out`.
fn append_bytes(out: &mut Vec<u8>, b: Vec<u8>)
    ensures
        final(out)@ == old(out)@ + b@,
{
    let mut b = b;
    out.append(&mut b);
}

/// 256 to the power `w`.
pub open spec fn pow256(w: nat) -> nat
    decreases w,
{
    if w == 0 {
        1
    } else {
        256 * pow256((w - 1) as nat)
    }
}

/// A number that fits in `width` bytes, written most significant byte
/// first and read back the same way, is the number again.
pub proof fn lemma_be_roundtrip(n: nat, width: nat)
    requires
        n < pow256(width),
    ensures
        be_encode(n, width).len() == width,
        be_value(be_encode(n, width)) == n,
    decreases width,
{
    reveal(be_encode);
    if width > 0 {
        assert(n / 256 < pow256((width - 1) as nat)) by (nonlinear_arith)
            requires n < 256 * pow256((width - 1) as nat);
        lemma_be_roundtrip(n / 256, (width - 1) as nat);
        let s = be_encode(n / 256, (width - 1) as nat);
        assert(s.push((n % 256) as u8).drop_last() =~= s);
        assert(n == (n / 256) * 256 + n % 256) by (nonlinear_arith);
    }
}

/// The bytes of the vocabulary file: the UTF-8 bytes of each word in turn.
pub open spec fn vocab_file_spec(words: Seq<Seq<char>>) -> Seq<u8>
    decreases words.len(),
{
    if words.len() == 0 {
        Seq::empty()
    } else {
        vocab_file_spec(words.drop_last()) + encode_utf8(words.last())
    }
}

/// The positions of the words in the vocabulary file.
pub open spec fn vocab_positions_spec(words: Seq<Seq<char>>) -> Seq<u64> {
    Seq::new(words.len(), |i: int| vocab_file_spec(words.take(i)).len() as u64)
}

/// The bytes of the document id file: each id in four bytes.
pub open spec fn doc_id_file_spec(ids: Seq<u32>) -> Seq<u8>
    decreases ids.len(),
{
    if ids.len() == 0 {
        Seq::empty()
    } else {
        doc_id_file_spec(ids.drop_last()) + be_encode(ids.last() as nat, 4)
    }
}

/// The gaps between the positions, the first counted from zero, each a
/// variable-byte number.
pub open spec fn positions_file_spec(ps: Seq<u64>) -> Seq<u8>
    decreases ps.len(),
{
    if ps.len() == 0 {
        Seq::empty()
    } else {
        let prev = if ps.len() >= 2 { ps[ps.len() - 2] as int } else { 0 };
        positions_file_spec(ps.drop_last()) + vb_encoding((ps.last() - prev) as nat)
    }
}

/// The stored scores of a posting, as the bits of four numbers.
pub open spec fn scores_bytes(s: (u64, u64, u64, u64)) -> Seq<u8> {
    be_encode(s.0 as nat, 8) + be_encode(s.1 as nat, 8) + be_encode(s.2 as nat, 8) + be_encode(s.3 as nat, 8)
}

/// The postings of a list: for each, the gap from the previous document
/// (the first from zero), its scores in eight bytes each, the number of
/// positions and the position gaps, each a variable-byte number.
pub open spec fn list_file_spec(ps: Seq<(u64, Seq<u64>)>, scores: Seq<(u64, u64, u64, u64)>) -> Seq<u8>
    decreases ps.len(),
{
    if ps.len() == 0 {
        Seq::empty()
    } else {
        let n = ps.len() - 1;
        let prev = if n >= 1 { ps[n - 1].0 as int } else { 0 };
        list_file_spec(ps.drop_last(), scores.take(n)) + vb_encoding((ps[n].0 - prev) as nat) + scores_bytes(scores[n])
            + vb_encoding((ps[n].1.len() as u32) as nat) + positions_file_spec(ps[n].1)
    }
}

/// The block of one term in the postings file: the number of its postings
/// in four bytes, then its postings.
pub open spec fn term_block_spec(ps: Seq<(u64, Seq<u64>)>, scores: Seq<(u64, u64, u64, u64)>) -> Seq<u8> {
    be_encode((ps.len() as u32) as nat, 4) + list_file_spec(ps, scores)
}

/// The postings file: the blocks of the terms in turn.
pub open spec fn postings_file_spec(lists: Seq<Seq<(u64, Seq<u64>)>>, scores: Seq<Seq<(u64, u64, u64, u64)>>) -> Seq<u8>
    decreases lists.len(),
{
    if lists.len() == 0 {
        Seq::empty()
    } else {
        let n = lists.len() - 1;
        postings_file_spec(lists.drop_last(), scores.take(n)) + term_block_spec(lists[n], scores[n])
    }
}

/// The entries of the vocabulary table: for each term, the position of its
/// word and that of its block, each in eight bytes.
pub open spec fn table_entries_spec(
    vocab_positions: Seq<u64>,
    lists: Seq<Seq<(u64, Seq<u64>)>>,
    scores: Seq<Seq<(u64, u64, u64, u64)>>,
) -> Seq<u8>
    decreases lists.len(),
{
    if lists.len() == 0 {
        Seq::empty()
    } else {
        let n = lists.len() - 1;
        table_entries_spec(vocab_positions, lists.drop_last(), scores.take(n)) + be_encode(vocab_positions[n] as nat, 8)
            + be_encode(postings_file_spec(lists.drop_last(), scores.take(n)).len(), 8)
    }
}

/// A list that the writer takes without panicking: ids and positions
/// within `u32`, documents and positions never decreasing, and a score for
/// each posting.
pub open spec fn writable_list(ps: Seq<(u64, Seq<u64>)>, scores: Seq<(u64, u64, u64, u64)>) -> bool {
    &&& scores.len() == ps.len()
    &&& forall|i: int| 0 <= i < ps.len() ==> (#[trigger] ps[i]).0 <= u32::MAX
    &&& forall|i: int| 0 < i < ps.len() ==> ps[i - 1].0 <= (#[trigger] ps[i]).0
    &&& forall|i: int, k: int| 0 <= i < ps.len() && 0 <= k < ps[i].1.len() ==> (#[trigger] ps[i].1[k]) <= u32::MAX
    &&& forall|i: int, k: int| 0 <= i < ps.len() && 0 < k < ps[i].1.len() ==> ps[i].1[k - 1] <= (#[trigger] ps[i].1[k])
}

/// The weights of a document as the weights file stores them: four
/// eight-byte values, the bits of its weight, its length, its size in bytes
/// and the bits of its average term frequency.
pub open spec fn weight_record_spec(w: (u64, u32, u32, u64)) -> Seq<u8> {
    be_encode(w.0 as nat, 8) + be_encode(w.1 as nat, 8) + be_encode(w.2 as nat, 8) + be_encode(w.3 as nat, 8)
}

/// The records of the weights file after its first eight bytes.
pub open spec fn weight_records_spec(ws: Seq<(u64, u32, u32, u64)>) -> Seq<u8>
    decreases ws.len(),
{
    if ws.len() == 0 {
        Seq::empty()
    } else {
        weight_records_spec(ws.drop_last()) + weight_record_spec(ws.last())
    }
}

/// One more term adds its block to the postings file and its entry to the
/// table.
proof fn lemma_file_step(
    vocab_positions: Seq<u64>,
    lists: Seq<Seq<(u64, Seq<u64>)>>,
    scores: Seq<Seq<(u64, u64, u64, u64)>>,
    i: int,
)
    requires
        0 <= i < lists.len(),
        i < scores.len(),
    ensures
        postings_file_spec(lists.take(i + 1), scores.take(i + 1)) == postings_file_spec(lists.take(i), scores.take(i))
            + term_block_spec(lists[i], scores[i]),
        table_entries_spec(vocab_positions, lists.take(i + 1), scores.take(i + 1)) == table_entries_spec(
            vocab_positions,
            lists.take(i),
            scores.take(i),
        ) + be_encode(vocab_positions[i] as nat, 8) + be_encode(postings_file_spec(lists.take(i), scores.take(i)).len(), 8),
{
    let l1 = lists.take(i + 1);
    let s1 = scores.take(i + 1);
    assert(l1.drop_last() =~= lists.take(i));
    assert(s1.take(i) =~= scores.take(i));
}

/// Writes the files of an on-disk index into a folder.
pub struct IndexWriter<'a> {
    folder_path: &'a str,
}

impl<'a> IndexWriter<'a> {
    /// The folder that the index is written into.
    pub closed spec fn folder(&self) -> Seq<char> {
        self.folder_path@
    }

    /// A writer for the folder `folder_path`.
    pub fn new(folder_path: &'a str) -> (w: IndexWriter<'a>)
        ensures
            w.folder() == folder_path@,
    {
        IndexWriter { folder_path: folder_path }
    }

    /// The folder that the index is written into.
    pub fn get_folder_path(&self) -> (p: &'a str)
        ensures
            p@ == self.folder(),
    {
        self.folder_path
    }

    /// The bytes of `vocab.bin` for `dictionary`; the position of each word
    /// is appended to `vocab_positions`.
    pub fn build_vocab_file(&self, dictionary: &Vec<&String>, vocab_positions: &mut Vec<u64>) -> (bytes: Vec<u8>)
        ensures
            bytes@ == vocab_file_spec(ref_views(dictionary@)),
            final(vocab_positions)@ == old(vocab_positions)@ + vocab_positions_spec(ref_views(dictionary@)),
    {
        let ghost words = ref_views(dictionary@);
        let ghost start = vocab_positions@;
        let mut bytes: Vec<u8> = Vec::new();
        let mut i: usize = 0;
        while i < dictionary.len()
            invariant
                i <= dictionary@.len(),
                words == ref_views(dictionary@),
                bytes@ == vocab_file_spec(words.take(i as int)),
                vocab_positions@ == start + vocab_positions_spec(words.take(i as int)),
            decreases dictionary@.len() - i,
        {
            let ghost before = vocab_positions_spec(words.take(i as int));
            assert(words.take(i + 1).drop_last() =~= words.take(i as int));
            assert(words.take(i + 1).last() == dictionary@[i as int]@);
            vocab_positions.push(bytes.len() as u64);
            assert(vocab_positions_spec(words.take(i + 1)) =~= before.push(bytes.len() as u64)) by {
                assert forall|k: int| 0 <= k < i + 1 implies #[trigger] vocab_positions_spec(words.take(i + 1))[k]
                    == before.push(bytes.len() as u64)[k] by {
                    assert(words.take(i + 1).take(k) =~= words.take(k));
                    if k < i {
                        assert(words.take(i as int).take(k) =~= words.take(k));
                    } else {
                        assert(words.take(i + 1).take(k) =~= words.take(i as int));
                    }
                }
            }
            assert(vocab_positions@ =~= start + vocab_positions_spec(words.take(i + 1)));
            let word_bytes = dictionary[i].as_str().as_bytes();
            let mut copy: Vec<u8> = Vec::new();
            copy.extend_from_slice(word_bytes);
            assert forall|k: int| 0 <= k < word_bytes@.len() implies copy@[k] == word_bytes@[k] by {
                assert(cloned::<u8>(word_bytes@[k], copy@[k]));
            }
            assert(copy@ =~= encode_utf8(dictionary@[i as int]@));
            append_bytes(&mut bytes, copy);
            i = i + 1;
        }
        assert(words.take(dictionary@.len() as int) =~= words);
        bytes
    }

    /// The bytes of `doc_id.bin`: each document id in four bytes; the
    /// position of each is appended to `doc_id_positions`.
    pub fn build_doc_id_file(&self, doc_ids: &Vec<u32>, doc_id_positions: &mut Vec<u64>) -> (bytes: Vec<u8>)
        requires
            4 * doc_ids@.len() <= u64::MAX,
        ensures
            bytes@ == doc_id_file_spec(doc_ids@),
            final(doc_id_positions)@ == old(doc_id_positions)@ + Seq::new(doc_ids@.len(), |i: int| (4 * i) as u64),
    {
        let ghost start = doc_id_positions@;
        let mut bytes: Vec<u8> = Vec::new();
        let mut position: u64 = 0;
        let mut i: usize = 0;
        while i < doc_ids.len()
            invariant
                i <= doc_ids@.len(),
                4 * doc_ids@.len() <= u64::MAX,
                position == 4 * i,
                bytes@ == doc_id_file_spec(doc_ids@.take(i as int)),
                doc_id_positions@ == start + Seq::new(i as nat, |k: int| (4 * k) as u64),
            decreases doc_ids@.len() - i,
        {
            doc_id_positions.push(position);
            assert(doc_id_positions@ =~= start + Seq::new((i + 1) as nat, |k: int| (4 * k) as u64));
            assert(doc_ids@.take(i + 1).drop_last() =~= doc_ids@.take(i as int));
            append_bytes(&mut bytes, be_u32_bytes(doc_ids[i]));
            position = position + 4;
            i = i + 1;
        }
        assert(doc_ids@.take(doc_ids@.len() as int) =~= doc_ids@);
        bytes
    }

    /// The bytes of `doc_weights.bin`: the bits of the average document
    /// length in eight bytes, then the record of each document (see
    /// `weight_record_spec`).
    pub fn build_doc_weights_file(&self, average_doc_length: u64, doc_weights: &Vec<(u64, u32, u32, u64)>) -> (bytes: Vec<u8>)
        ensures
            bytes@ == be_encode(average_doc_length as nat, 8) + weight_records_spec(doc_weights@),
    {
        let mut bytes: Vec<u8> = be_u64_bytes(average_doc_length);
        let ghost head = bytes@;
        let mut i: usize = 0;
        while i < doc_weights.len()
            invariant
                i <= doc_weights@.len(),
                bytes@ == head + weight_records_spec(doc_weights@.take(i as int)),
            decreases doc_weights@.len() - i,
        {
            let w = doc_weights[i];
            assert(doc_weights@.take(i + 1).drop_last() =~= doc_weights@.take(i as int));
            append_bytes(&mut bytes, be_u64_bytes(w.0));
            append_bytes(&mut bytes, be_u64_bytes(w.1 as u64));
            append_bytes(&mut bytes, be_u64_bytes(w.2 as u64));
            append_bytes(&mut bytes, be_u64_bytes(w.3));
            assert(bytes@ =~= head + weight_records_spec(doc_weights@.take(i + 1)));
            i = i + 1;
        }
        assert(doc_weights@.take(doc_weights@.len() as int) =~= doc_weights@);
        bytes
    }

    /// The bytes of `postings.bin` and of `vocab_table.bin` for the terms of
    /// `dictionary`, whose words start at `vocab_positions`: the block of
    /// each term (see `term_block_spec`) with the scores of its postings,
    /// and the number of terms followed by the position of each word and of
    /// its block.
    #[verifier::rlimit(50)]
    pub fn build_postings_file(
        &self,
        index: &PositionalInvertedIndex,
        dictionary: &Vec<&String>,
        vocab_positions: &Vec<u64>,
        scores: &Vec<Vec<(u64, u64, u64, u64)>>,
    ) -> (files: (Vec<u8>, Vec<u8>))
        requires
            index.wf(),
            vocab_positions@.len() >= dictionary@.len(),
            scores@.len() == dictionary@.len(),
            forall|i: int| 0 <= i < dictionary@.len() ==> index.index_view().contains_key(#[trigger] dictionary@[i]@),
            forall|i: int| 0 <= i < dictionary@.len() ==> writable_list(index.index_view()[#[trigger] dictionary@[i]@], scores@[i]@),
        ensures
            files.0@ == postings_file_spec(
                ref_views(dictionary@).map_values(|t: Seq<char>| index.index_view()[t]),
                scores@.map_values(|v: Vec<(u64, u64, u64, u64)>| v@),
            ),
            files.1@ == be_encode((dictionary@.len() as u32) as nat, 4) + table_entries_spec(
                vocab_positions@,
                ref_views(dictionary@).map_values(|t: Seq<char>| index.index_view()[t]),
                scores@.map_values(|v: Vec<(u64, u64, u64, u64)>| v@),
            ),
    {
        let ghost lists = ref_views(dictionary@).map_values(|t: Seq<char>| index.index_view()[t]);
        let ghost sv = scores@.map_values(|v: Vec<(u64, u64, u64, u64)>| v@);
        let mut postings: Vec<u8> = Vec::new();
        let mut table: Vec<u8> = be_u32_bytes(dictionary.len() as u32);
        let ghost head = table@;
        let mut i: usize = 0;
        assert(lists.take(0) =~= Seq::<Seq<(u64, Seq<u64>)>>::empty());
        while i < dictionary.len()
            invariant
                i <= dictionary@.len(),
                index.wf(),
                vocab_positions@.len() >= dictionary@.len(),
                scores@.len() == dictionary@.len(),
                forall|k: int| 0 <= k < dictionary@.len() ==> index.index_view().contains_key(#[trigger] dictionary@[k]@),
                forall|k: int| 0 <= k < dictionary@.len() ==> writable_list(index.index_view()[#[trigger] dictionary@[k]@], scores@[k]@),
                lists == ref_views(dictionary@).map_values(|t: Seq<char>| index.index_view()[t]),
                sv == scores@.map_values(|v: Vec<(u64, u64, u64, u64)>| v@),
                postings@ == postings_file_spec(lists.take(i as int), sv.take(i as int)),
                table@ == head + table_entries_spec(vocab_positions@, lists.take(i as int), sv.take(i as int)),
            decreases dictionary@.len() - i,
        {
            let term = dictionary[i];
            assert(lists[i as int] == index.index_view()[term@]);
            assert(sv[i as int] == scores@[i as int]@);
            let size = postings.len() as u64;
            let ghost before_postings = postings@;
            append_bytes(&mut table, be_u64_bytes(vocab_positions[i]));
            append_bytes(&mut table, be_u64_bytes(size));
            let ps = index.get_postings(term.as_str());
            append_bytes(&mut postings, be_u32_bytes(ps.len() as u32));
            assert(postings_view(ps@).len() == ps@.len());
            append_bytes(&mut postings, list_bytes(ps, &scores[i]));
            proof {
                lemma_file_step(vocab_positions@, lists, sv, i as int);
                assert(postings@ =~= postings_file_spec(lists.take(i + 1), sv.take(i + 1)));
                assert(table@ =~= head + table_entries_spec(vocab_positions@, lists.take(i + 1), sv.take(i + 1)));
            }
            i = i + 1;
        }
        assert(lists.take(dictionary@.len() as int) =~= lists);
        assert(sv.take(dictionary@.len() as int) =~= sv);
        (postings, table)
    }
}

/// The bytes of the position gaps of `ps` (see `positions_file_spec`).
fn positions_bytes(ps: &Vec<u64>) -> (bytes: Vec<u8>)
    requires
        forall|k: int| 0 <= k < ps@.len() ==> #[trigger] ps@[k] <= u32::MAX,
        forall|k: int| 0 < k < ps@.len() ==> ps@[k - 1] <= #[trigger] ps@[k],
    ensures
        bytes@ == positions_file_spec(ps@),
{
    let mut bytes: Vec<u8> = Vec::new();
    let mut last: u64 = 0;
    let mut i: usize = 0;
    while i < ps.len()
        invariant
            i <= ps@.len(),
            forall|k: int| 0 <= k < ps@.len() ==> #[trigger] ps@[k] <= u32::MAX,
            forall|k: int| 0 < k < ps@.len() ==> ps@[k - 1] <= #[trigger] ps@[k],
            last == if i >= 1 { ps@[i - 1] } else { 0 },
            bytes@ == positions_file_spec(ps@.take(i as int)),
        decreases ps@.len() - i,
    {
        let pos = ps[i];
        assert(ps@.take(i + 1).drop_last() =~= ps@.take(i as int));
        assert(ps@.take(i + 1).last() == pos);
        if i >= 1 {
            assert(ps@.take(i + 1)[i - 1] == ps@[i - 1]);
        }
        append_bytes(&mut bytes, encode((pos - last) as u32));
        last = pos;
        i = i + 1;
    }
    assert(ps@.take(ps@.len() as int) =~= ps@);
    bytes
}

/// The bytes of the postings of one list (see `list_file_spec`).
#[verifier::spinoff_prover]
#[verifier::rlimit(60)]
fn list_bytes(ps: &Vec<PositionalPosting>, scores: &Vec<(u64, u64, u64, u64)>) -> (bytes: Vec<u8>)
    requires
        writable_list(postings_view(ps@), scores@),
    ensures
        bytes@ == list_file_spec(postings_view(ps@), scores@),
{
    let ghost pv = postings_view(ps@);
    let mut bytes: Vec<u8> = Vec::new();
    let mut last_doc: u64 = 0;
    let mut i: usize = 0;
    while i < ps.len()
        invariant
            i <= ps@.len(),
            pv == postings_view(ps@),
            writable_list(pv, scores@),
            last_doc == if i >= 1 { pv[i - 1].0 } else { 0 },
            bytes@ == list_file_spec(pv.take(i as int), scores@.take(i as int)),
        decreases ps@.len() - i,
    {
        let doc = ps[i].get_doc_id();
        let positions = ps[i].get_positions();
        assert(pv[i as int] == ps@[i as int]@);
        let s = scores[i];
        let ghost t1 = pv.take(i + 1);
        assert(t1.drop_last() =~= pv.take(i as int));
        assert(scores@.take(i + 1).take(i as int) =~= scores@.take(i as int));
        assert(t1[i as int] == pv[i as int]);
        if i >= 1 {
            assert(t1[i - 1] == pv[i - 1]);
        }
        let ghost before = bytes@;
        let gap_bytes = encode((doc - last_doc) as u32);
        let ghost g1 = gap_bytes@;
        append_bytes(&mut bytes, gap_bytes);
        append_bytes(&mut bytes, be_u64_bytes(s.0));
        append_bytes(&mut bytes, be_u64_bytes(s.1));
        append_bytes(&mut bytes, be_u64_bytes(s.2));
        append_bytes(&mut bytes, be_u64_bytes(s.3));
        let count_bytes = encode(positions.len() as u32);
        let ghost g2 = count_bytes@;
        append_bytes(&mut bytes, count_bytes);
        proof {
            assert forall|k: int| 0 <= k < positions@.len() implies #[trigger] positions@[k] <= u32::MAX by {
                assert(pv[i as int].1[k] == positions@[k]);
            }
            assert forall|k: int| 0 < k < positions@.len() implies positions@[k - 1] <= #[trigger] positions@[k] by {
                assert(pv[i as int].1[k] == positions@[k]);
                assert(pv[i as int].1[k - 1] == positions@[k - 1]);
            }
        }
        let pos_bytes = positions_bytes(&positions);
        let ghost g3 = pos_bytes@;
        append_bytes(&mut bytes, pos_bytes);
        assert(scores@.take(i + 1)[i as int] == s);
        proof {
            let prev = if i >= 1 { t1[i - 1].0 as int } else { 0 };
            assert(g1 == vb_encoding((t1[i as int].0 - prev) as nat));
            assert(g2 == vb_encoding((t1[i as int].1.len() as u32) as nat));
            assert(list_file_spec(t1, scores@.take(i + 1)) == list_file_spec(pv.take(i as int), scores@.take(i as int))
                + g1 + scores_bytes(s) + g2 + g3);
        }
        assert(bytes@ =~= before + g1 + scores_bytes(s) + g2 + g3);
        last_doc = doc;
        i = i + 1;
    }
    assert(pv.take(ps@.len() as int) =~= pv);
    assert(scores@.take(ps@.len() as int) =~= scores@);
    bytes
}

/// Every number is written in `width` bytes.
proof fn lemma_be_encode_len(n: nat, width: nat)
    ensures
        be_encode(n, width).len() == width,
    decreases width,
{
    reveal(be_encode);
    if width > 0 {
        lemma_be_encode_len(n / 256, (width - 1) as nat);
    }
}

/// The vocabulary table takes sixteen bytes per term: the first eight of
/// the `k`-th entry hold the position of its word, the other eight that of
/// its block in the postings file.
proof fn lemma_table_entries(
    vocab_positions: Seq<u64>,
    lists: Seq<Seq<(u64, Seq<u64>)>>,
    scores: Seq<Seq<(u64, u64, u64, u64)>>,
    k: int,
)
    requires
        scores.len() == lists.len(),
    ensures
        table_entries_spec(vocab_positions, lists, scores).len() == 16 * lists.len(),
        0 <= k < lists.len() ==> table_entries_spec(vocab_positions, lists, scores).subrange(16 * k, 16 * k + 8)
            == be_encode(vocab_positions[k] as nat, 8),
        0 <= k < lists.len() ==> table_entries_spec(vocab_positions, lists, scores).subrange(16 * k + 8, 16 * k + 16)
            == be_encode(postings_file_spec(lists.take(k), scores.take(k)).len(), 8),
    decreases lists.len(),
{
    if lists.len() > 0 {
        let n = lists.len() - 1;
        let prev = table_entries_spec(vocab_positions, lists.drop_last(), scores.take(n));
        let word_at = be_encode(vocab_positions[n] as nat, 8);
        let block_at = be_encode(postings_file_spec(lists.drop_last(), scores.take(n)).len(), 8);
        lemma_table_entries(vocab_positions, lists.drop_last(), scores.take(n), k);
        lemma_be_encode_len(vocab_positions[n] as nat, 8);
        lemma_be_encode_len(postings_file_spec(lists.drop_last(), scores.take(n)).len(), 8);
        let all = table_entries_spec(vocab_positions, lists, scores);
        assert(all == prev + word_at + block_at);
        if 0 <= k < n {
            assert(all.subrange(16 * k, 16 * k + 8) =~= prev.subrange(16 * k, 16 * k + 8));
            assert(all.subrange(16 * k + 8, 16 * k + 16) =~= prev.subrange(16 * k + 8, 16 * k + 16));
            assert(lists.drop_last().take(k) =~= lists.take(k));
            assert(scores.take(n).take(k) =~= scores.take(k));
        } else if k == n {
            assert(all.subrange(16 * k, 16 * k + 8) =~= word_at);
            assert(all.subrange(16 * k + 8, 16 * k + 16) =~= block_at);
            assert(lists.take(k) =~= lists.drop_last());
        }
    }
}

/// The blocks of the first `k` terms take no more bytes than all of them.
proof fn lemma_postings_prefix(lists: Seq<Seq<(u64, Seq<u64>)>>, scores: Seq<Seq<(u64, u64, u64, u64)>>, k: int)
    requires
        scores.len() == lists.len(),
        0 <= k <= lists.len(),
    ensures
        postings_file_spec(lists.take(k), scores.take(k)).len() <= postings_file_spec(lists, scores).len(),
    decreases lists.len(),
{
    if k < lists.len() {
        let n = lists.len() - 1;
        lemma_postings_prefix(lists.drop_last(), scores.take(n), k);
        assert(lists.drop_last().take(k) =~= lists.take(k));
        assert(scores.take(n).take(k) =~= scores.take(k));
    } else {
        assert(lists.take(k) =~= lists);
        assert(scores.take(k) =~= scores);
    }
}

/// The binary search of a table whose entries hold strictly increasing
/// words finds each of them, at its entry's postings position.
proof fn lemma_search_finds(table: Seq<u64>, vocab: Seq<u8>, words: Seq<Seq<char>>, k: int, i: int, j: int)
    requires
        table.len() == 2 * words.len(),
        forall|m: int| 0 <= m < words.len() ==> #[trigger] table_term(table, vocab, m) == Some(words[m]),
        forall|a: int, b: int| 0 <= a < b < words.len() ==> lex_lt(#[trigger] words[a], #[trigger] words[b]),
        0 <= i <= k <= j < words.len(),
    ensures
        search_from(table, vocab, words[k], i, j) == Some(table[2 * k + 1] as i64),
    decreases j - i,
{
    let m = (i + j) / 2;
    assert(table_term(table, vocab, m) == Some(words[m]));
    if m < k {
        lemma_lex_order(words[m], words[k], words[m]);
        lemma_search_finds(table, vocab, words, k, m + 1, j);
    } else if m > k {
        lemma_lex_order(words[k], words[m], words[k]);
        lemma_search_finds(table, vocab, words, k, i, m - 1);
    }
}

/// The vocabulary file of words one after the other is that of the first
/// ones followed by that of the others.
proof fn lemma_vocab_file_concat(a: Seq<Seq<char>>, b: Seq<Seq<char>>)
    ensures
        vocab_file_spec(a + b) == vocab_file_spec(a) + vocab_file_spec(b),
    decreases b.len(),
{
    if b.len() == 0 {
        assert(a + b =~= a);
        assert(vocab_file_spec(a) + vocab_file_spec(b) =~= vocab_file_spec(a));
    } else {
        lemma_vocab_file_concat(a, b.drop_last());
        assert((a + b).drop_last() =~= a + b.drop_last());
        assert((a + b).last() == b.last());
        assert(vocab_file_spec(a + b) =~= vocab_file_spec(a) + vocab_file_spec(b));
    }
}

/// The vocabulary file is valid UTF-8.
proof fn lemma_vocab_file_valid(words: Seq<Seq<char>>)
    ensures
        valid_utf8(vocab_file_spec(words)),
    decreases words.len(),
{
    if words.len() > 0 {
        lemma_vocab_file_valid(words.drop_last());
        encode_utf8_valid_utf8(words.last());
        valid_utf8_concat(vocab_file_spec(words.drop_last()), encode_utf8(words.last()));
    }
}

/// Where two pieces of valid UTF-8 meet, a character starts.
proof fn lemma_boundary_at_join(a: Seq<u8>, b: Seq<u8>)
    requires
        valid_utf8(a),
        valid_utf8(b),
    ensures
        valid_utf8(a + b),
        is_char_boundary(a + b, a.len() as int),
{
    valid_utf8_concat(a, b);
    if b.len() == 0 {
        assert(a + b =~= a);
        is_char_boundary_start_end_of_seq(a);
    } else {
        is_char_boundary_start_end_of_seq(b);
        is_char_boundary_iff_not_is_continuation_byte(b, 0);
        is_char_boundary_iff_not_is_continuation_byte(a + b, a.len() as int);
        assert((a + b)[a.len() as int] == b[0]);
    }
}

/// The vocabulary file around its `k`-th word: a character starts where
/// the word does, and its bytes are the word's.
proof fn lemma_vocab_file_word(words: Seq<Seq<char>>, k: int)
    requires
        0 <= k <= words.len(),
    ensures
        vocab_file_spec(words.take(k)).len() <= vocab_file_spec(words).len(),
        is_char_boundary(vocab_file_spec(words), vocab_file_spec(words.take(k)).len() as int),
        k < words.len() ==> {
            &&& vocab_file_spec(words.take(k + 1)).len() == vocab_file_spec(words.take(k)).len() + encode_utf8(words[k]).len()
            &&& vocab_file_spec(words).subrange(
                vocab_file_spec(words.take(k)).len() as int,
                vocab_file_spec(words.take(k + 1)).len() as int,
            ) == encode_utf8(words[k])
        },
{
    let v = vocab_file_spec(words);
    let front = vocab_file_spec(words.take(k));
    assert(words =~= words.take(k) + words.skip(k));
    lemma_vocab_file_concat(words.take(k), words.skip(k));
    lemma_vocab_file_valid(words.take(k));
    lemma_vocab_file_valid(words.skip(k));
    lemma_boundary_at_join(front, vocab_file_spec(words.skip(k)));
    if k < words.len() {
        assert(words.take(k + 1).drop_last() =~= words.take(k));
        assert(words.take(k + 1).last() == words[k]);
        let next = vocab_file_spec(words.take(k + 1));
        assert(next == front + encode_utf8(words[k]));
        assert(words =~= words.take(k + 1) + words.skip(k + 1));
        lemma_vocab_file_concat(words.take(k + 1), words.skip(k + 1));
        assert(v.subrange(front.len() as int, next.len() as int) =~= encode_utf8(words[k]));
    }
}

/// The table that the reader makes of the written table file: two entries
/// per word, the position of the word in the vocabulary file and that of its
/// block in the postings file.
#[verifier::spinoff_prover]
proof fn lemma_written_table(
    words: Seq<Seq<char>>,
    lists: Seq<Seq<(u64, Seq<u64>)>>,
    scores: Seq<Seq<(u64, u64, u64, u64)>>,
)
    requires
        lists.len() == words.len(),
        scores.len() == words.len(),
        vocab_file_spec(words).len() <= u64::MAX,
        postings_file_spec(lists, scores).len() <= i64::MAX,
    ensures
        ({
            let table = vocab_table_spec(be_encode((words.len() as u32) as nat, 4)
                + table_entries_spec(vocab_positions_spec(words), lists, scores));
            &&& table.len() == 2 * words.len()
            &&& forall|k: int| 0 <= k < words.len() ==> #[trigger] table[2 * k] as int == vocab_file_spec(words.take(k)).len()
            &&& forall|k: int| 0 <= k < words.len() ==> #[trigger] table[2 * k + 1] as int
                == postings_file_spec(lists.take(k), scores.take(k)).len()
            &&& forall|k: int| 0 <= k < words.len() ==> postings_file_spec(lists.take(k), scores.take(k)).len() <= i64::MAX
        }),
{
    let n = words.len() as int;
    let vp = vocab_positions_spec(words);
    let entries = table_entries_spec(vp, lists, scores);
    let table_file = be_encode((words.len() as u32) as nat, 4) + entries;
    let table = vocab_table_spec(table_file);
    lemma_be_encode_len((words.len() as u32) as nat, 4);
    lemma_table_entries(vp, lists, scores, 0);
    assert(table.len() == 2 * n);
    assert(pow256(8) == 0x1_0000_0000_0000_0000) by {
        reveal_with_fuel(pow256, 9);
    }
    assert forall|k: int| 0 <= k < n implies #[trigger] table[2 * k] as int == vocab_file_spec(words.take(k)).len() by {
        lemma_vocab_file_word(words, k);
        lemma_table_entries(vp, lists, scores, k);
        assert(table_file.subrange(4 + 8 * (2 * k), 12 + 8 * (2 * k)) =~= entries.subrange(16 * k, 16 * k + 8));
        lemma_be_roundtrip(vp[k] as nat, 8);
    }
    assert forall|k: int| 0 <= k < n implies #[trigger] table[2 * k + 1] as int
        == postings_file_spec(lists.take(k), scores.take(k)).len() by {
        lemma_table_entries(vp, lists, scores, k);
        lemma_postings_prefix(lists, scores, k);
        assert(table_file.subrange(4 + 8 * (2 * k + 1), 12 + 8 * (2 * k + 1)) =~= entries.subrange(16 * k + 8, 16 * k + 16));
        lemma_be_roundtrip(postings_file_spec(lists.take(k), scores.take(k)).len(), 8);
    }
    assert forall|k: int| 0 <= k < n implies postings_file_spec(lists.take(k), scores.take(k)).len() <= i64::MAX by {
        lemma_postings_prefix(lists, scores, k);
    }
}

/// The reader cuts the written vocabulary file where the words start, and
/// reads each entry of the written table as its word.
#[verifier::spinoff_prover]
proof fn lemma_written_vocabulary(words: Seq<Seq<char>>, table: Seq<u64>)
    requires
        words.len() > 0,
        vocab_file_spec(words).len() <= u64::MAX,
        table.len() == 2 * words.len(),
        forall|k: int| 0 <= k < words.len() ==> #[trigger] table[2 * k] as int == vocab_file_spec(words.take(k)).len(),
    ensures
        vocab_readable(table, vocab_file_spec(words)),
        vocab_terms(table, vocab_file_spec(words)) == words,
        forall|m: int| 0 <= m < words.len() ==> #[trigger] table_term(table, vocab_file_spec(words), m) == Some(words[m]),
{
    let n = words.len() as int;
    let vocab = vocab_file_spec(words);
    let b = crate::index::disk_inverted_index::vocab_bounds(table, vocab.len() as int);
    assert(b.len() == n + 1);
    assert forall|k: int| 0 <= k <= n implies #[trigger] b[k] == vocab_file_spec(words.take(k)).len() by {
        lemma_vocab_file_word(words, k);
        if k == 0 {
            assert(words.take(0) =~= Seq::<Seq<char>>::empty());
        } else if k == n {
            assert(words.take(n) =~= words);
        } else {
            assert(b[k] == table[2 * (k - 1) + 2]);
            assert(2 * (k - 1) + 2 == 2 * k);
        }
    }
    lemma_vocab_file_valid(words);
    assert forall|k: int| 0 <= k < b.len() - 1 implies b[k] <= #[trigger] b[k + 1] <= vocab.len()
        && is_char_boundary(vocab, b[k + 1]) by {
        lemma_vocab_file_word(words, k);
        lemma_vocab_file_word(words, k + 1);
    }
    let terms = vocab_terms(table, vocab);
    assert forall|k: int| 0 <= k < n implies #[trigger] terms[k] == words[k] by {
        lemma_vocab_file_word(words, k);
        lemma_vocab_file_word(words, k + 1);
        encode_utf8_decode_utf8(words[k]);
    }
    assert(terms =~= words);
    assert forall|m: int| 0 <= m < n implies #[trigger] table_term(table, vocab, m) == Some(words[m]) by {
        lemma_vocab_file_word(words, m);
        lemma_vocab_file_word(words, m + 1);
        encode_utf8_valid_utf8(words[m]);
        encode_utf8_decode_utf8(words[m]);
        assert(b[m] == table[2 * m]);
        assert(b[m + 1] == vocab_file_spec(words.take(m + 1)).len());
        if m < n - 1 {
            assert(b[m + 1] == table[2 * m + 2]);
        } else {
            assert(words.take(m + 1) =~= words);
        }
        if b[m] == b[m + 1] {
            assert(encode_utf8(words[m]) =~= Seq::<u8>::empty());
        }
    }
}

/// What the writer writes, read back, gives the dictionary again: the
/// vocabulary file and the vocabulary table that come with the postings file
/// make an index whose vocabulary can be read and holds the words of the
/// dictionary, in order, and whose binary search finds each word at the
/// position of its block in the postings file.  (With no word at all, the
/// reader sees one empty term.)
#[verifier::spinoff_prover]
#[verifier::rlimit(40)]
pub proof fn lemma_vocabulary_round_trip(
    words: Seq<Seq<char>>,
    lists: Seq<Seq<(u64, Seq<u64>)>>,
    scores: Seq<Seq<(u64, u64, u64, u64)>>,
)
    requires
        words.len() > 0,
        lists.len() == words.len(),
        scores.len() == words.len(),
        forall|a: int, b: int| 0 <= a < b < words.len() ==> lex_lt(#[trigger] words[a], #[trigger] words[b]),
        vocab_file_spec(words).len() <= u64::MAX,
        postings_file_spec(lists, scores).len() <= i64::MAX,
    ensures
        ({
            let table_file = be_encode((words.len() as u32) as nat, 4)
                + table_entries_spec(vocab_positions_spec(words), lists, scores);
            let vocab = vocab_file_spec(words);
            &&& vocab_readable(vocab_table_spec(table_file), vocab)
            &&& vocab_terms(vocab_table_spec(table_file), vocab) == words
            &&& forall|k: int| 0 <= k < words.len() ==> #[trigger] vocab_search(vocab_table_spec(table_file), vocab, words[k])
                == Some(postings_file_spec(lists.take(k), scores.take(k)).len() as i64)
        }),
{
    let n = words.len() as int;
    let table = vocab_table_spec(be_encode((words.len() as u32) as nat, 4)
        + table_entries_spec(vocab_positions_spec(words), lists, scores));
    let vocab = vocab_file_spec(words);
    lemma_written_table(words, lists, scores);
    lemma_written_vocabulary(words, table);
    assert forall|k: int| 0 <= k < n implies #[trigger] vocab_search(table, vocab, words[k])
        == Some(postings_file_spec(lists.take(k), scores.take(k)).len() as i64) by {
        lemma_search_finds(table, vocab, words, k, 0, n - 1);
        assert(table[2 * k + 1] as int == postings_file_spec(lists.take(k), scores.take(k)).len());
    }
}

/// The weight records take 32 bytes each, and the `k`-th holds the
/// document's four values in turn.
proof fn lemma_weight_records(ws: Seq<(u64, u32, u32, u64)>, k: int)
    ensures
        weight_records_spec(ws).len() == 32 * ws.len(),
        0 <= k < ws.len() ==> weight_records_spec(ws).subrange(32 * k, 32 * k + 32) == weight_record_spec(ws[k]),
    decreases ws.len(),
{
    if ws.len() > 0 {
        let w = ws.last();
        lemma_weight_records(ws.drop_last(), k);
        lemma_be_encode_len(w.0 as nat, 8);
        lemma_be_encode_len(w.1 as nat, 8);
        lemma_be_encode_len(w.2 as nat, 8);
        lemma_be_encode_len(w.3 as nat, 8);
        let prev = weight_records_spec(ws.drop_last());
        if 0 <= k < ws.len() - 1 {
            assert(weight_records_spec(ws).subrange(32 * k, 32 * k + 32) =~= prev.subrange(32 * k, 32 * k + 32));
        } else if k == ws.len() - 1 {
            assert(weight_records_spec(ws).subrange(32 * k, 32 * k + 32) =~= weight_record_spec(w));
        }
    }
}

/// What the writer writes into the weights file, read back, gives each
/// document's weights again (the documents written in the order of their
/// ids): the average document length, and the document's weight, length,
/// size in bytes and average term frequency.
pub proof fn lemma_weights_round_trip(average_doc_length: u64, ws: Seq<(u64, u32, u32, u64)>, doc_id: u32)
    requires
        doc_id < ws.len(),
    ensures
        weights_at(be_encode(average_doc_length as nat, 8) + weight_records_spec(ws), doc_id) == Some((
            average_doc_length,
            ws[doc_id as int].0,
            ws[doc_id as int].1 as u64,
            ws[doc_id as int].2 as u64,
            ws[doc_id as int].3,
        )),
{
    let k = doc_id as int;
    let head = be_encode(average_doc_length as nat, 8);
    let bytes = head + weight_records_spec(ws);
    let w = ws[k];
    let rec = weight_record_spec(w);
    lemma_be_encode_len(average_doc_length as nat, 8);
    lemma_weight_records(ws, k);
    lemma_be_encode_len(w.0 as nat, 8);
    lemma_be_encode_len(w.1 as nat, 8);
    lemma_be_encode_len(w.2 as nat, 8);
    lemma_be_encode_len(w.3 as nat, 8);
    assert(pow256(8) == 0x1_0000_0000_0000_0000) by {
        reveal_with_fuel(pow256, 9);
    }
    let off = k * 32 + 8;
    let records = weight_records_spec(ws);
    assert(head.len() == 8);
    assert(bytes.subrange(off, off + 32) =~= records.subrange(32 * k, 32 * k + 32));
    assert(bytes.subrange(off, off + 32) =~= rec);
    assert(bytes.subrange(0, 8) =~= head);
    let e0 = be_encode(w.0 as nat, 8);
    let e1 = be_encode(w.1 as nat, 8);
    let e2 = be_encode(w.2 as nat, 8);
    let e3 = be_encode(w.3 as nat, 8);
    assert(rec == e0 + e1 + e2 + e3);
    assert(rec.subrange(0, 8) =~= e0);
    assert(rec.subrange(8, 16) =~= e1);
    assert(rec.subrange(16, 24) =~= e2);
    assert(rec.subrange(24, 32) =~= e3);
    assert(bytes.subrange(off, off + 8) =~= rec.subrange(0, 8));
    assert(bytes.subrange(off + 8, off + 16) =~= rec.subrange(8, 16));
    assert(bytes.subrange(off + 16, off + 24) =~= rec.subrange(16, 24));
    assert(bytes.subrange(off + 24, off + 32) =~= rec.subrange(24, 32));
    lemma_be_roundtrip(average_doc_length as nat, 8);
    lemma_be_roundtrip(w.0 as nat, 8);
    lemma_be_roundtrip(w.1 as nat, 8);
    lemma_be_roundtrip(w.2 as nat, 8);
    lemma_be_roundtrip(w.3 as nat, 8);
}

/// A variable-byte number written at `p` reads back as itself.
proof fn lemma_vb_reads_back(bytes: Seq<u8>, p: int, n: nat)
    requires
        n <= u32::MAX,
        0 <= p,
        p + vb_encoding(n).len() <= bytes.len(),
        bytes.subrange(p, p + vb_encoding(n).len()) == vb_encoding(n),
    ensures
        vb_at(bytes, p) == Some((n, vb_encoding(n).len())),
{
    let e = vb_encoding(n);
    let w = vb_window(bytes, p);
    lemma_decode_encode(n as u32, Seq::empty());
    let tail = w.skip(e.len() as int);
    assert(w =~= e + tail);
    lemma_decode_encode(n as u32, tail);
}

/// The position before the `k`-th one, zero before the first.
pub open spec fn previous(ps: Seq<u64>, k: int) -> int {
    if k >= 1 { ps[k - 1] as int } else { 0 }
}

/// The position gaps of `ps` from the `k`-th on, as the writer lays them
/// out.
pub open spec fn positions_from(ps: Seq<u64>, k: int) -> Seq<u8>
    decreases ps.len() - k,
{
    if k < 0 || k >= ps.len() {
        Seq::empty()
    } else {
        vb_encoding((ps[k] - previous(ps, k)) as nat) + positions_from(ps, k + 1)
    }
}

proof fn lemma_positions_from_drop_last(ps: Seq<u64>, k: int)
    requires
        ps.len() > 0,
        0 <= k < ps.len(),
    ensures
        positions_from(ps, k) == positions_from(ps.drop_last(), k)
            + vb_encoding((ps.last() - previous(ps, ps.len() - 1)) as nat),
    decreases ps.len() - k,
{
    let d = ps.drop_last();
    if k < ps.len() - 1 {
        lemma_positions_from_drop_last(ps, k + 1);
        assert(d[k] == ps[k]);
        assert(previous(d, k) == previous(ps, k));
        assert(positions_from(ps, k) =~= positions_from(d, k) + vb_encoding((ps.last() - previous(ps, ps.len() - 1)) as nat));
    } else {
        assert(positions_from(d, k) =~= Seq::<u8>::empty());
        assert(positions_from(ps, k + 1) =~= Seq::<u8>::empty());
        assert(positions_from(ps, k) =~= positions_from(d, k) + vb_encoding((ps.last() - previous(ps, ps.len() - 1)) as nat));
    }
}

/// The writer's gaps, read forward.
proof fn lemma_positions_forward(ps: Seq<u64>)
    ensures
        positions_file_spec(ps) == positions_from(ps, 0),
    decreases ps.len(),
{
    if ps.len() > 0 {
        lemma_positions_forward(ps.drop_last());
        lemma_positions_from_drop_last(ps, 0);
        if ps.len() == 1 {
            assert(positions_from(ps.drop_last(), 0) =~= Seq::<u8>::empty());
        }
    }
}

/// The position gaps written from the `k`-th position on read back as the
/// positions.
proof fn lemma_positions_read_back(bytes: Seq<u8>, p: int, ps: Seq<u64>, k: int)
    requires
        0 <= k <= ps.len(),
        0 <= p,
        p + positions_from(ps, k).len() <= bytes.len(),
        bytes.subrange(p, p + positions_from(ps, k).len()) == positions_from(ps, k),
        forall|i: int| 0 <= i < ps.len() ==> #[trigger] ps[i] <= u32::MAX,
        forall|i: int| 0 < i < ps.len() ==> ps[i - 1] <= #[trigger] ps[i],
    ensures
        read_positions(bytes, p, (ps.len() - k) as nat, previous(ps, k) as nat)
            == Some((ps.skip(k).map_values(|x: u64| x as u32), p + positions_from(ps, k).len())),
    decreases ps.len() - k,
{
    if k < ps.len() {
        let gap = (ps[k] - previous(ps, k)) as nat;
        let e = vb_encoding(gap);
        let rest = positions_from(ps, k + 1);
        assert(positions_from(ps, k) == e + rest);
        assert(bytes.subrange(p, p + e.len()) =~= positions_from(ps, k).subrange(0, e.len() as int));
        assert(positions_from(ps, k).subrange(0, e.len() as int) =~= e);
        lemma_vb_reads_back(bytes, p, gap);
        assert(bytes.subrange(p + e.len(), p + e.len() + rest.len()) =~= positions_from(ps, k).subrange(e.len() as int, positions_from(ps, k).len() as int));
        assert(positions_from(ps, k).subrange(e.len() as int, positions_from(ps, k).len() as int) =~= rest);
        lemma_positions_read_back(bytes, p + e.len(), ps, k + 1);
        assert(previous(ps, k + 1) == ps[k]);
        assert(previous(ps, k) + gap == ps[k]);
        assert(ps.skip(k).map_values(|x: u64| x as u32) =~= seq![ps[k] as u32] + ps.skip(k + 1).map_values(|x: u64| x as u32));
    } else {
        assert(ps.skip(k).map_values(|x: u64| x as u32) =~= Seq::<u32>::empty());
    }
}

/// Bytes that hold `r` at `p` hold each piece of `r` at the matching place.
proof fn lemma_piece(bytes: Seq<u8>, p: int, r: Seq<u8>, a: int, b: int)
    requires
        0 <= p,
        p + r.len() <= bytes.len(),
        bytes.subrange(p, p + r.len()) == r,
        0 <= a <= b <= r.len(),
    ensures
        bytes.subrange(p + a, p + b) == r.subrange(a, b),
{
    assert(bytes.subrange(p + a, p + b) =~= bytes.subrange(p, p + r.len()).subrange(a, b));
}

/// The document before the `k`-th posting, zero before the first.
pub open spec fn previous_doc(ps: Seq<(u64, Seq<u64>)>, k: int) -> int {
    if k >= 1 { ps[k - 1].0 as int } else { 0 }
}

/// The bytes of the `k`-th posting of a list, as the writer lays them out.
pub open spec fn record_bytes(ps: Seq<(u64, Seq<u64>)>, sc: Seq<(u64, u64, u64, u64)>, k: int) -> Seq<u8> {
    vb_encoding((ps[k].0 - previous_doc(ps, k)) as nat) + scores_bytes(sc[k])
        + vb_encoding((ps[k].1.len() as u32) as nat) + positions_file_spec(ps[k].1)
}

/// The bytes of the postings of a list from the `k`-th on.
pub open spec fn list_from(ps: Seq<(u64, Seq<u64>)>, sc: Seq<(u64, u64, u64, u64)>, k: int) -> Seq<u8>
    decreases ps.len() - k,
{
    if k < 0 || k >= ps.len() {
        Seq::empty()
    } else {
        record_bytes(ps, sc, k) + list_from(ps, sc, k + 1)
    }
}

/// What a list written by the writer reads back as: each posting's
/// document, its number of positions, its scores and its positions.
pub open spec fn read_back_list(ps: Seq<(u64, Seq<u64>)>, sc: Seq<(u64, u64, u64, u64)>)
    -> Seq<(u32, u32, u64, u64, u64, u64, Seq<u32>)>
{
    Seq::new(ps.len(), |i: int| (
        ps[i].0 as u32,
        ps[i].1.len() as u32,
        sc[i].0,
        sc[i].1,
        sc[i].2,
        sc[i].3,
        ps[i].1.map_values(|x: u64| x as u32),
    ))
}

proof fn lemma_list_from_drop_last(ps: Seq<(u64, Seq<u64>)>, sc: Seq<(u64, u64, u64, u64)>, k: int)
    requires
        sc.len() == ps.len(),
        0 <= k < ps.len(),
    ensures
        list_from(ps, sc, k) == list_from(ps.drop_last(), sc.take(ps.len() - 1), k) + record_bytes(ps, sc, ps.len() - 1),
    decreases ps.len() - k,
{
    let n = ps.len() - 1;
    let d = ps.drop_last();
    let t = sc.take(n);
    if k < n {
        lemma_list_from_drop_last(ps, sc, k + 1);
        assert(d[k] == ps[k]);
        assert(t[k] == sc[k]);
        assert(previous_doc(d, k) == previous_doc(ps, k));
        assert(record_bytes(d, t, k) == record_bytes(ps, sc, k));
        assert(list_from(ps, sc, k) =~= list_from(d, t, k) + record_bytes(ps, sc, n));
    } else {
        assert(list_from(d, t, k) =~= Seq::<u8>::empty());
        assert(list_from(ps, sc, k + 1) =~= Seq::<u8>::empty());
        assert(list_from(ps, sc, k) =~= list_from(d, t, k) + record_bytes(ps, sc, n));
    }
}

/// The writer's postings, read forward.
proof fn lemma_list_forward(ps: Seq<(u64, Seq<u64>)>, sc: Seq<(u64, u64, u64, u64)>)
    requires
        sc.len() == ps.len(),
    ensures
        list_file_spec(ps, sc) == list_from(ps, sc, 0),
    decreases ps.len(),
{
    if ps.len() > 0 {
        let n = ps.len() - 1;
        lemma_list_forward(ps.drop_last(), sc.take(n));
        lemma_list_from_drop_last(ps, sc, 0);
        if n == 0 {
            assert(list_from(ps.drop_last(), sc.take(n), 0) =~= Seq::<u8>::empty());
        }
        assert(list_file_spec(ps, sc) =~= list_file_spec(ps.drop_last(), sc.take(n)) + record_bytes(ps, sc, n));
    }
}

/// Four scores written at `q` read back as themselves.
proof fn lemma_scores_read_back(bytes: Seq<u8>, q: int, s: (u64, u64, u64, u64))
    requires
        0 <= q,
        q + 32 <= bytes.len(),
        bytes.subrange(q, q + 32) == scores_bytes(s),
    ensures
        u64_spec(bytes, q) == s.0,
        u64_spec(bytes, q + 8) == s.1,
        u64_spec(bytes, q + 16) == s.2,
        u64_spec(bytes, q + 24) == s.3,
{
    let sb = scores_bytes(s);
    lemma_be_encode_len(s.0 as nat, 8);
    lemma_be_encode_len(s.1 as nat, 8);
    lemma_be_encode_len(s.2 as nat, 8);
    lemma_be_encode_len(s.3 as nat, 8);
    assert(pow256(8) == 0x1_0000_0000_0000_0000) by {
        reveal_with_fuel(pow256, 9);
    }
    lemma_piece(bytes, q, sb, 0, 8);
    assert(sb.subrange(0, 8) =~= be_encode(s.0 as nat, 8));
    lemma_be_roundtrip(s.0 as nat, 8);
    lemma_piece(bytes, q, sb, 8, 16);
    assert(sb.subrange(8, 16) =~= be_encode(s.1 as nat, 8));
    lemma_be_roundtrip(s.1 as nat, 8);
    lemma_piece(bytes, q, sb, 16, 24);
    assert(sb.subrange(16, 24) =~= be_encode(s.2 as nat, 8));
    lemma_be_roundtrip(s.2 as nat, 8);
    lemma_piece(bytes, q, sb, 24, 32);
    assert(sb.subrange(24, 32) =~= be_encode(s.3 as nat, 8));
    lemma_be_roundtrip(s.3 as nat, 8);
}

/// The bytes of one posting after document `prev`.
pub open spec fn posting_bytes(prev: nat, doc: u64, positions: Seq<u64>, s: (u64, u64, u64, u64)) -> Seq<u8> {
    vb_encoding((doc - prev) as nat) + scores_bytes(s) + vb_encoding((positions.len() as u32) as nat)
        + positions_file_spec(positions)
}

/// One posting written at `p` reads back as itself.
#[verifier::spinoff_prover]
proof fn lemma_posting_read_back(bytes: Seq<u8>, p: int, prev: nat, doc: u64, positions: Seq<u64>, s: (u64, u64, u64, u64))
    requires
        prev <= doc <= u32::MAX,
        positions.len() <= u32::MAX,
        forall|i: int| 0 <= i < positions.len() ==> #[trigger] positions[i] <= u32::MAX,
        forall|i: int| 0 < i < positions.len() ==> positions[i - 1] <= #[trigger] positions[i],
        0 <= p,
        p + posting_bytes(prev, doc, positions, s).len() <= bytes.len(),
        bytes.subrange(p, p + posting_bytes(prev, doc, positions, s).len()) == posting_bytes(prev, doc, positions, s),
    ensures
        read_record(bytes, p, prev, true) == Some((
            (doc as u32, positions.len() as u32, s.0, s.1, s.2, s.3, positions.map_values(|x: u64| x as u32)),
            p + posting_bytes(prev, doc, positions, s).len(),
        )),
{
    let r = posting_bytes(prev, doc, positions, s);
    let gap = (doc - prev) as nat;
    let e1 = vb_encoding(gap);
    let sb = scores_bytes(s);
    let tf = (positions.len() as u32) as nat;
    let e2 = vb_encoding(tf);
    let pf = positions_file_spec(positions);
    lemma_be_encode_len(s.0 as nat, 8);
    lemma_be_encode_len(s.1 as nat, 8);
    lemma_be_encode_len(s.2 as nat, 8);
    lemma_be_encode_len(s.3 as nat, 8);
    assert(sb.len() == 32);
    let l1 = e1.len() as int;
    let l2 = e2.len() as int;
    lemma_piece(bytes, p, r, 0, l1);
    assert(r.subrange(0, l1) =~= e1);
    lemma_vb_reads_back(bytes, p, gap);
    let q = p + l1;
    lemma_piece(bytes, p, r, l1, l1 + 32);
    assert(r.subrange(l1, l1 + 32) =~= sb);
    lemma_scores_read_back(bytes, q, s);
    lemma_piece(bytes, p, r, l1 + 32, l1 + 32 + l2);
    assert(r.subrange(l1 + 32, l1 + 32 + l2) =~= e2);
    lemma_vb_reads_back(bytes, q + 32, tf);
    let rr = q + 32 + l2;
    lemma_positions_forward(positions);
    lemma_piece(bytes, p, r, l1 + 32 + l2, r.len() as int);
    assert(r.subrange(l1 + 32 + l2, r.len() as int) =~= pf);
    lemma_positions_read_back(bytes, rr, positions, 0);
    assert(positions.skip(0) =~= positions);
    assert(tf == positions.len());
    assert(prev + gap == doc);
}

/// The `k`-th posting written at `p` reads back as itself.
proof fn lemma_record_read_back(bytes: Seq<u8>, p: int, ps: Seq<(u64, Seq<u64>)>, sc: Seq<(u64, u64, u64, u64)>, k: int)
    requires
        writable_list(ps, sc),
        forall|i: int| 0 <= i < ps.len() ==> (#[trigger] ps[i]).1.len() <= u32::MAX,
        0 <= k < ps.len(),
        0 <= p,
        p + record_bytes(ps, sc, k).len() <= bytes.len(),
        bytes.subrange(p, p + record_bytes(ps, sc, k).len()) == record_bytes(ps, sc, k),
    ensures
        read_record(bytes, p, previous_doc(ps, k) as nat, true) == Some((read_back_list(ps, sc)[k], p + record_bytes(ps, sc, k).len())),
{
    if k >= 1 {
        assert(ps[k - 1].0 <= ps[k].0);
    }
    assert(ps[k].0 <= u32::MAX);
    let positions = ps[k].1;
    assert forall|i: int| 0 <= i < positions.len() implies #[trigger] positions[i] <= u32::MAX by {
        assert(ps[k].1[i] <= u32::MAX);
    }
    assert forall|i: int| 0 < i < positions.len() implies positions[i - 1] <= #[trigger] positions[i] by {
        assert(ps[k].1[i - 1] <= ps[k].1[i]);
    }
    assert(record_bytes(ps, sc, k) == posting_bytes(previous_doc(ps, k) as nat, ps[k].0, positions, sc[k]));
    lemma_posting_read_back(bytes, p, previous_doc(ps, k) as nat, ps[k].0, positions, sc[k]);
}

/// The postings written from the `k`-th on read back as themselves.
proof fn lemma_records_read_back(bytes: Seq<u8>, p: int, ps: Seq<(u64, Seq<u64>)>, sc: Seq<(u64, u64, u64, u64)>, k: int)
    requires
        writable_list(ps, sc),
        forall|i: int| 0 <= i < ps.len() ==> (#[trigger] ps[i]).1.len() <= u32::MAX,
        0 <= k <= ps.len(),
        0 <= p,
        p + list_from(ps, sc, k).len() <= bytes.len(),
        bytes.subrange(p, p + list_from(ps, sc, k).len()) == list_from(ps, sc, k),
    ensures
        read_records(bytes, p, (ps.len() - k) as nat, previous_doc(ps, k) as nat, true)
            == Some(read_back_list(ps, sc).skip(k)),
    decreases ps.len() - k,
{
    if k < ps.len() {
        let r = record_bytes(ps, sc, k);
        let rest = list_from(ps, sc, k + 1);
        let all = list_from(ps, sc, k);
        assert(all == r + rest);
        lemma_piece(bytes, p, all, 0, r.len() as int);
        assert(all.subrange(0, r.len() as int) =~= r);
        lemma_record_read_back(bytes, p, ps, sc, k);
        lemma_piece(bytes, p, all, r.len() as int, all.len() as int);
        assert(all.subrange(r.len() as int, all.len() as int) =~= rest);
        lemma_records_read_back(bytes, p + r.len(), ps, sc, k + 1);
        assert(read_back_list(ps, sc)[k].0 as nat == previous_doc(ps, k + 1)) by {
            assert(ps[k].0 <= u32::MAX);
        }
        assert(read_back_list(ps, sc).skip(k) =~= seq![read_back_list(ps, sc)[k]] + read_back_list(ps, sc).skip(k + 1));
    } else {
        assert(read_back_list(ps, sc).skip(k) =~= Seq::empty());
    }
}

/// A term's block written at `pos` reads back as its list.
proof fn lemma_block_read_back(bytes: Seq<u8>, pos: int, ps: Seq<(u64, Seq<u64>)>, sc: Seq<(u64, u64, u64, u64)>)
    requires
        writable_list(ps, sc),
        ps.len() <= u32::MAX,
        forall|i: int| 0 <= i < ps.len() ==> (#[trigger] ps[i]).1.len() <= u32::MAX,
        0 <= pos,
        pos + term_block_spec(ps, sc).len() <= bytes.len(),
        bytes.subrange(pos, pos + term_block_spec(ps, sc).len()) == term_block_spec(ps, sc),
    ensures
        postings_at(bytes, pos, true) == Some(read_back_list(ps, sc)),
{
    let head = be_encode((ps.len() as u32) as nat, 4);
    let block = term_block_spec(ps, sc);
    lemma_be_encode_len((ps.len() as u32) as nat, 4);
    assert(pow256(4) == 0x1_0000_0000) by {
        reveal_with_fuel(pow256, 5);
    }
    lemma_be_roundtrip((ps.len() as u32) as nat, 4);
    lemma_piece(bytes, pos, block, 0, 4);
    assert(block.subrange(0, 4) =~= head);
    lemma_list_forward(ps, sc);
    let body = list_from(ps, sc, 0);
    lemma_piece(bytes, pos, block, 4, block.len() as int);
    assert(block.subrange(4, block.len() as int) =~= body);
    lemma_records_read_back(bytes, pos + 4, ps, sc, 0);
    assert(read_back_list(ps, sc).skip(0) =~= read_back_list(ps, sc));
}

/// The block of the `k`-th term lies in the postings file where the blocks
/// before it end.
proof fn lemma_postings_file_block(lists: Seq<Seq<(u64, Seq<u64>)>>, scores: Seq<Seq<(u64, u64, u64, u64)>>, k: int)
    requires
        scores.len() == lists.len(),
        0 <= k < lists.len(),
    ensures
        postings_file_spec(lists.take(k), scores.take(k)).len() + term_block_spec(lists[k], scores[k]).len()
            <= postings_file_spec(lists, scores).len(),
        postings_file_spec(lists, scores).subrange(
            postings_file_spec(lists.take(k), scores.take(k)).len() as int,
            (postings_file_spec(lists.take(k), scores.take(k)).len() + term_block_spec(lists[k], scores[k]).len()) as int,
        ) == term_block_spec(lists[k], scores[k]),
    decreases lists.len(),
{
    let n = lists.len() - 1;
    let d = lists.drop_last();
    let t = scores.take(n);
    let all = postings_file_spec(lists, scores);
    assert(all == postings_file_spec(d, t) + term_block_spec(lists[n], scores[n]));
    if k < n {
        lemma_postings_file_block(d, t, k);
        assert(d.take(k) =~= lists.take(k));
        assert(t.take(k) =~= scores.take(k));
        assert(d[k] == lists[k]);
        assert(t[k] == scores[k]);
        let start = postings_file_spec(lists.take(k), scores.take(k)).len() as int;
        let end = (start + term_block_spec(lists[k], scores[k]).len()) as int;
        assert(all.subrange(start, end) =~= postings_file_spec(d, t).subrange(start, end));
    } else {
        assert(lists.take(k) =~= d);
        assert(scores.take(k) =~= t);
        let start = postings_file_spec(d, t).len() as int;
        assert(all.subrange(start, all.len() as int) =~= term_block_spec(lists[n], scores[n]));
    }
}

/// What the writer writes into the postings file, read back, gives each
/// term's list again: read at the position of the term's block (where the
/// blocks before it end), the list holds each posting's document, its
/// number of positions, its stored scores and its positions.
pub proof fn lemma_postings_round_trip(lists: Seq<Seq<(u64, Seq<u64>)>>, scores: Seq<Seq<(u64, u64, u64, u64)>>, k: int)
    requires
        scores.len() == lists.len(),
        forall|i: int| 0 <= i < lists.len() ==> writable_list(#[trigger] lists[i], scores[i]),
        forall|i: int| 0 <= i < lists.len() ==> (#[trigger] lists[i]).len() <= u32::MAX,
        forall|i: int, j: int| 0 <= i < lists.len() && 0 <= j < lists[i].len() ==> (#[trigger] lists[i][j]).1.len() <= u32::MAX,
        0 <= k < lists.len(),
    ensures
        postings_at(postings_file_spec(lists, scores), postings_file_spec(lists.take(k), scores.take(k)).len() as int, true)
            == Some(read_back_list(lists[k], scores[k])),
{
    let bytes = postings_file_spec(lists, scores);
    let pos = postings_file_spec(lists.take(k), scores.take(k)).len() as int;
    lemma_postings_file_block(lists, scores, k);
    assert(writable_list(lists[k], scores[k]));
    assert forall|i: int| 0 <= i < lists[k].len() implies (#[trigger] lists[k][i]).1.len() <= u32::MAX by {
        assert(lists[k][i].1.len() <= u32::MAX);
    }
    lemma_block_read_back(bytes, pos, lists[k], scores[k]);
}

} // verus!
