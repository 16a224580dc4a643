//! The counts of documents behind the mutual information of a term and a
//! class, for the three classes (Hamilton, Jay, Madison), from the number of
//! documents of each class and the number of them that contain the term.
use vstd::prelude::*;

verus! {

/// Three counts, one per class.
pub type Counts = (u32, u32, u32);

/// Three sums of counts, and the two triples they were summed from.
pub type CountSums = (u32, u32, u32, Counts, Counts);

/// The sum of two counts, `None` beyond `u32`.
pub open spec fn add_spec(a: u32, b: u32) -> Option<u32> {
    if a + b > u32::MAX {
        None
    } else {
        Some((a + b) as u32)
    }
}

/// The difference of two counts, `None` below zero.
pub open spec fn sub_spec(a: u32, b: u32) -> Option<u32> {
    if a < b {
        None
    } else {
        Some((a - b) as u32)
    }
}

/// The documents of each class without the term: `None` where one class
/// has more documents with the term than documents.
pub open spec fn without_term(totals: Counts, dfs: Counts) -> Option<Counts> {
    match (sub_spec(totals.0, dfs.0), sub_spec(totals.1, dfs.1), sub_spec(totals.2, dfs.2)) {
        (Some(h), Some(j), Some(m)) => Some((h, j, m)),
        _ => None,
    }
}

/// N00: for each class, the documents without the term in the two other
/// classes.
pub open spec fn n_00_spec(totals: Counts, dfs: Counts) -> Option<Counts> {
    match without_term(totals, dfs) {
        None => None,
        Some(w) => match (add_spec(w.1, w.2), add_spec(w.0, w.2), add_spec(w.0, w.1)) {
            (Some(h), Some(j), Some(m)) => Some((h, j, m)),
            _ => None,
        },
    }
}

/// N01: for each class, the documents with the term in the two other
/// classes.
pub open spec fn n_01_spec(dfs: Counts) -> Option<Counts> {
    match (add_spec(dfs.1, dfs.2), add_spec(dfs.0, dfs.2), add_spec(dfs.0, dfs.1)) {
        (Some(h), Some(j), Some(m)) => Some((h, j, m)),
        _ => None,
    }
}

/// The sums of two triples of counts, class by class, with the triples.
pub open spec fn sums_spec(a: Counts, b: Counts) -> Option<CountSums> {
    match (add_spec(a.0, b.0), add_spec(a.1, b.1), add_spec(a.2, b.2)) {
        (Some(h), Some(j), Some(m)) => Some((h, j, m, a, b)),
        _ => None,
    }
}

fn add_checked(a: u32, b: u32) -> (r: Option<u32>)
    ensures
        r == add_spec(a, b),
{
    a.checked_add(b)
}

fn sub_checked(a: u32, b: u32) -> (r: Option<u32>)
    ensures
        r == sub_spec(a, b),
{
    a.checked_sub(b)
}

fn without_term_counts(totals: Counts, dfs: Counts) -> (r: Option<Counts>)
    ensures
        r == without_term(totals, dfs),
{
    match (sub_checked(totals.0, dfs.0), sub_checked(totals.1, dfs.1), sub_checked(totals.2, dfs.2)) {
        (Some(h), Some(j), Some(m)) => Some((h, j, m)),
        _ => None,
    }
}

/// The documents of the three classes together: `Err` when there are none;
/// `None` where the sum overflows `u32`, where adding panics.
pub fn get_total_num_documents(totals: Counts) -> (r: Option<Result<u32, &'static str>>)
    ensures
        totals.0 + totals.1 + totals.2 > u32::MAX ==> r is None,
        totals.0 + totals.1 + totals.2 <= u32::MAX ==> if totals.0 + totals.1 + totals.2 > 0 {
            r == Some(Ok::<u32, &'static str>((totals.0 + totals.1 + totals.2) as u32))
        } else {
            r matches Some(Err(_))
        },
{
    let first = match add_checked(totals.0, totals.1) {
        None => return None,
        Some(n) => n,
    };
    let total = match add_checked(first, totals.2) {
        None => return None,
        Some(n) => n,
    };
    if total > 0 {
        Some(Ok(total))
    } else {
        Some(Err("Error: No Documents Found in Index"))
    }
}

/// N00 (see `n_00_spec`); `None` where the counts panic.
pub fn get_n_00(totals: Counts, dfs: Counts) -> (r: Option<Counts>)
    ensures
        r == n_00_spec(totals, dfs),
{
    match without_term_counts(totals, dfs) {
        None => None,
        Some(w) => match (add_checked(w.1, w.2), add_checked(w.0, w.2), add_checked(w.0, w.1)) {
            (Some(h), Some(j), Some(m)) => Some((h, j, m)),
            _ => None,
        },
    }
}

/// N01 (see `n_01_spec`); `None` where the counts panic.
pub fn get_n_01(dfs: Counts) -> (r: Option<Counts>)
    ensures
        r == n_01_spec(dfs),
{
    match (add_checked(dfs.1, dfs.2), add_checked(dfs.0, dfs.2), add_checked(dfs.0, dfs.1)) {
        (Some(h), Some(j), Some(m)) => Some((h, j, m)),
        _ => None,
    }
}

/// N10: for each class, its documents without the term; `None` where a
/// class has more documents with the term than documents.
pub fn get_n_10(totals: Counts, dfs: Counts) -> (r: Option<Counts>)
    ensures
        r == without_term(totals, dfs),
{
    without_term_counts(totals, dfs)
}

/// N11: for each class, its documents with the term.
pub fn get_n_11(dfs: Counts) -> (r: Counts)
    ensures
        r == dfs,
{
    dfs
}

fn sums(a: Counts, b: Counts) -> (r: Option<CountSums>)
    ensures
        r == sums_spec(a, b),
{
    match (add_checked(a.0, b.0), add_checked(a.1, b.1), add_checked(a.2, b.2)) {
        (Some(h), Some(j), Some(m)) => Some((h, j, m, a, b)),
        _ => None,
    }
}

/// N0X = N00 + N01, with N00 and N01.
#[allow(non_snake_case)]
pub fn get_n_0X(totals: Counts, dfs: Counts) -> (r: Option<CountSums>)
    ensures
        r == match (n_00_spec(totals, dfs), n_01_spec(dfs)) {
            (Some(a), Some(b)) => sums_spec(a, b),
            _ => None,
        },
{
    match (get_n_00(totals, dfs), get_n_01(dfs)) {
        (Some(a), Some(b)) => sums(a, b),
        _ => None,
    }
}

/// NX0 = N00 + N10, with N00 and N10.
#[allow(non_snake_case)]
pub fn get_n_X0(totals: Counts, dfs: Counts) -> (r: Option<CountSums>)
    ensures
        r == match (n_00_spec(totals, dfs), without_term(totals, dfs)) {
            (Some(a), Some(b)) => sums_spec(a, b),
            _ => None,
        },
{
    match (get_n_00(totals, dfs), get_n_10(totals, dfs)) {
        (Some(a), Some(b)) => sums(a, b),
        _ => None,
    }
}

/// N1X = N10 + N11, with N10 and N11.
#[allow(non_snake_case)]
pub fn get_n_1X(totals: Counts, dfs: Counts) -> (r: Option<CountSums>)
    ensures
        r == match without_term(totals, dfs) {
            Some(a) => sums_spec(a, dfs),
            None => None,
        },
{
    match get_n_10(totals, dfs) {
        Some(a) => sums(a, get_n_11(dfs)),
        None => None,
    }
}

/// NX1 = N01 + N11, with N01 and N11.
#[allow(non_snake_case)]
pub fn get_n_X1(dfs: Counts) -> (r: Option<CountSums>)
    ensures
        r == match n_01_spec(dfs) {
            Some(a) => sums_spec(a, dfs),
            None => None,
        },
{
    match get_n_01(dfs) {
        Some(a) => sums(a, get_n_11(dfs)),
        None => None,
    }
}

/// For every class, the documents without the term and those with it, in
/// the class and in the two others, make up all the documents:
/// N00 + N01 + N10 + N11 is the total.
pub proof fn lemma_counts_cover_all(totals: Counts, dfs: Counts)
    requires
        totals.0 + totals.1 + totals.2 <= u32::MAX,
        dfs.0 <= totals.0,
        dfs.1 <= totals.1,
        dfs.2 <= totals.2,
    ensures
        n_00_spec(totals, dfs) is Some,
        without_term(totals, dfs) is Some,
        n_01_spec(dfs) is Some,
        ({
            let n00 = n_00_spec(totals, dfs)->0;
            let n10 = without_term(totals, dfs)->0;
            let n01 = n_01_spec(dfs)->0;
            &&& n00.0 + n01.0 + n10.0 + dfs.0 == totals.0 + totals.1 + totals.2
            &&& n00.1 + n01.1 + n10.1 + dfs.1 == totals.0 + totals.1 + totals.2
            &&& n00.2 + n01.2 + n10.2 + dfs.2 == totals.0 + totals.1 + totals.2
        }),
{
}

} // verus!
