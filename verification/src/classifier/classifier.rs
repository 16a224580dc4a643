//! The authors that documents are classified into, and the interface of a
//! classifier.
use vstd::prelude::*;

verus! {

/// The authors of the Federalist papers.
#[derive(Copy, Clone, Debug, PartialEq, PartialOrd)]
pub enum DocumentClass {
    Hamilton,
    Jay,
    Madison,
}

/// A classifier of documents by author.
pub trait Classifier<'a> {
    /// The author that the document `doc_id` is attributed to.
    fn classify(&self, doc_id: u32) -> &'a str;

    /// The vocabulary over all classes.
    fn get_all_vocab(&self) -> Vec<String>;
}

} // verus!
