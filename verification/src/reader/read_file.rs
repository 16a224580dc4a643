//! Documents: a title, a body and a URL.
use vstd::prelude::*;
use crate::text::{split_whitespace, words_spec};

verus! {

/// A document read from a file.
pub struct Document {
    title: String,
    body: String,
    url: String,
}

impl Document {
    /// The title.
    pub closed spec fn title_view(&self) -> Seq<char> {
        self.title@
    }

    /// The body.
    pub closed spec fn body_view(&self) -> Seq<char> {
        self.body@
    }

    /// The URL.
    pub closed spec fn url_view(&self) -> Seq<char> {
        self.url@
    }

    /// A copy of the title.
    pub fn get_title(&self) -> (s: String)
        ensures
            s@ == self.title_view(),
    {
        self.title.clone()
    }

    /// A copy of the body.
    pub fn get_body(&self) -> (s: String)
        ensures
            s@ == self.body_view(),
    {
        self.body.clone()
    }

    /// A copy of the URL.
    pub fn get_url(&self) -> (s: String)
        ensures
            s@ == self.url_view(),
    {
        self.url.clone()
    }

    /// A copy of the document.
    pub fn clone(&self) -> (d: Document)
        ensures
            d.title_view() == self.title_view(),
            d.body_view() == self.body_view(),
            d.url_view() == self.url_view(),
    {
        Document { title: self.title.clone(), body: self.body.clone(), url: self.url.clone() }
    }
}

/// The words of a body, each followed by one space.
pub open spec fn spaced_words(words: Seq<Seq<char>>) -> Seq<char>
    decreases words.len(),
{
    if words.len() == 0 {
        Seq::empty()
    } else {
        spaced_words(words.drop_last()) + words.last() + seq![' ']
    }
}

/// The document of a text file: its name is the title, its contents the
/// body, and the URL is empty.
pub fn read_text_file(file_name: &str, contents: String) -> (d: Document)
    ensures
        d.title_view() == file_name@,
        d.body_view() == contents@,
        d.url_view() == Seq::<char>::empty(),
{
    Document { title: file_name.to_owned(), body: contents, url: String::new() }
}

/// The document of a JSON file whose fields are `title`, `body` and `url`:
/// the body becomes its white-space separated words, each followed
/// by one space.
pub fn read_json_file(title: String, body: String, url: String) -> (d: Document)
    ensures
        d.title_view() == title@,
        d.body_view() == spaced_words(words_spec(body@)),
        d.url_view() == url@,
{
    let words = split_whitespace(body.as_str());
    let ghost wv = words@.map_values(|v: Vec<char>| v@);
    let mut new_body: Vec<char> = Vec::new();
    let mut i: usize = 0;
    assert(wv.take(0) =~= Seq::<Seq<char>>::empty());
    while i < words.len()
        invariant
            i <= words@.len(),
            wv == words@.map_values(|v: Vec<char>| v@),
            new_body@ == spaced_words(wv.take(i as int)),
        decreases words@.len() - i,
    {
        let ghost before = new_body@;
        let mut k: usize = 0;
        while k < words[i].len()
            invariant
                i < words@.len(),
                k <= words@[i as int]@.len(),
                new_body@ == before + words@[i as int]@.take(k as int),
            decreases words@[i as int]@.len() - k,
        {
            new_body.push(words[i][k]);
            assert(words@[i as int]@.take(k + 1) =~= words@[i as int]@.take(k as int).push(words@[i as int]@[k as int]));
            k = k + 1;
        }
        new_body.push(' ');
        assert(words@[i as int]@.take(k as int) =~= wv[i as int]);
        assert(wv.take(i + 1).drop_last() =~= wv.take(i as int));
        assert(new_body@ =~= spaced_words(wv.take(i as int)) + wv[i as int] + seq![' ']);
        i = i + 1;
    }
    assert(wv.take(words@.len() as int) =~= wv);
    Document { title, body: crate::text::string_from_chars(new_body.as_slice()), url }
}

} // verus!
