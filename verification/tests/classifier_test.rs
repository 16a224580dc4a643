use search_engine::classifier::class_counts::{
    get_n_00, get_n_01, get_n_0X, get_n_10, get_n_11, get_n_1X, get_n_X0, get_n_X1, get_total_num_documents,
};
use search_engine::classifier::vocabulary::{get_all_vocab, get_all_vocab_sorted};
use search_engine::index::disk_inverted_index::DiskInvertedIndex;

// Hamilton, Jay and Madison: documents per class, and those with the term.
const TOTALS: (u32, u32, u32) = (10, 5, 8);
const DFS: (u32, u32, u32) = (4, 1, 2);

#[test]
fn contingency_cells() {
    assert_eq!(get_n_00(TOTALS, DFS), Some((10, 12, 10)));
    assert_eq!(get_n_01(DFS), Some((3, 6, 5)));
    assert_eq!(get_n_10(TOTALS, DFS), Some((6, 4, 6)));
    assert_eq!(get_n_11(DFS), (4, 1, 2));
    assert_eq!(get_n_0X(TOTALS, DFS), Some((13, 18, 15, (10, 12, 10), (3, 6, 5))));
    assert_eq!(get_n_X0(TOTALS, DFS), Some((16, 16, 16, (10, 12, 10), (6, 4, 6))));
    assert_eq!(get_n_1X(TOTALS, DFS), Some((10, 5, 8, (6, 4, 6), (4, 1, 2))));
    assert_eq!(get_n_X1(DFS), Some((7, 7, 7, (3, 6, 5), (4, 1, 2))));
}

#[test]
fn contingency_cells_cover_all_documents() {
    let n00 = get_n_00(TOTALS, DFS).unwrap();
    let n01 = get_n_01(DFS).unwrap();
    let n10 = get_n_10(TOTALS, DFS).unwrap();
    let total = TOTALS.0 + TOTALS.1 + TOTALS.2;
    assert_eq!(n00.0 + n01.0 + n10.0 + DFS.0, total);
    assert_eq!(n00.1 + n01.1 + n10.1 + DFS.1, total);
    assert_eq!(n00.2 + n01.2 + n10.2 + DFS.2, total);
    assert_eq!(get_n_01((1, 2, 4)), Some((6, 5, 3)));
}

#[test]
fn contingency_cells_that_cannot_be_counted() {
    assert_eq!(get_n_00((1, 1, 1), (2, 0, 0)), None);
    assert_eq!(get_n_10((1, 1, 1), (0, 0, 2)), None);
    assert_eq!(get_n_01((0, u32::MAX, 1)), None);
    assert_eq!(get_n_X1((u32::MAX, 1, 0)), None);
}

#[test]
fn total_number_of_documents() {
    assert_eq!(get_total_num_documents(TOTALS), Some(Ok(23)));
    assert!(matches!(get_total_num_documents((0, 0, 0)), Some(Err(_))));
    assert_eq!(get_total_num_documents((u32::MAX, 1, 0)), None);
}

fn be32(n: u32) -> Vec<u8> {
    n.to_be_bytes().to_vec()
}

fn be64(n: u64) -> Vec<u8> {
    n.to_be_bytes().to_vec()
}

/// An index whose vocabulary holds `terms` (its lists are not read here).
fn vocabulary_index(terms: &[&str]) -> DiskInvertedIndex {
    let mut vocab = Vec::new();
    let mut table = be32(terms.len() as u32);
    for term in terms {
        table.extend(be64(vocab.len() as u64));
        table.extend(be64(0));
        vocab.extend(term.as_bytes());
    }
    DiskInvertedIndex::new("folder", vocab, Vec::new(), Vec::new(), &table)
}

#[test]
fn vocabulary_over_all_classes() {
    let hamilton = vocabulary_index(&["power", "union"]);
    let jay = vocabulary_index(&["treati", "union"]);
    let madison = vocabulary_index(&["faction", "power"]);
    let mut all = get_all_vocab(&hamilton, &jay, &madison).unwrap();
    all.sort();
    let expected: Vec<String> = ["faction", "power", "treati", "union"].iter().map(|s| s.to_string()).collect();
    assert_eq!(all, expected);
    assert_eq!(get_all_vocab_sorted(&hamilton, &jay, &madison), Some(expected));
    let broken = DiskInvertedIndex::new("folder", vec![0xff], Vec::new(), Vec::new(), &{
        let mut t = be32(1);
        t.extend(be64(0));
        t.extend(be64(0));
        t
    });
    assert_eq!(get_all_vocab(&hamilton, &broken, &madison), None);
}
