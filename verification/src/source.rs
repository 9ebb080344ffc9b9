use vstd::prelude::*;

verus! {

/// A term is a normalized token string; identity is the exact string value.
pub type Term = String;

/// One document to be indexed: a stable name and its ordered sequence of
/// tokens. Token order is insignificant for scoring, but repetitions count.
pub struct Document {
    pub name: String,
    pub terms: Vec<Term>,
}

impl Document {
    /// The token sequence seen as mathematical sequences of characters.
    pub open spec fn tokens(self) -> Seq<Seq<char>> {
        self.terms.deep_view()
    }
}

/// A producer of documents. Implementations resolve documents from wherever
/// they live (a directory of files, rendered HTML, ...); the index makes no
/// assumption about their behaviour beyond the returned plain values.
pub trait IndexSource {
    fn resolve(&self) -> Vec<Document>;
}

/// A document source that reads every file of one directory; the reading
/// itself is done by the caller that drives the index, so this type only
/// records the directory's path.
pub struct LocalFilesystemSource {
    pub path: String,
}

impl LocalFilesystemSource {
    pub fn new(path: &str) -> (s: Self)
        ensures
            s.path@ == path@,
    {
        LocalFilesystemSource { path: path.to_owned() }
    }

    /// The directory this source reads from.
    pub fn path(&self) -> (p: &String)
        ensures
            p@ == self.path@,
    {
        &self.path
    }
}

/// The sequence of whitespace-separated words of a string, as
/// `str::split_whitespace` yields them: the exact Unicode whitespace
/// classification is the standard library's.
pub uninterp spec fn whitespace_split(s: Seq<char>) -> Seq<Seq<char>>;

/// Relies on `str::split_whitespace`: the words of `s`, in order, split on
/// Unicode whitespace; an empty string yields no words.
#[verifier::external_body]
pub(crate) fn split_whitespace_words(s: &str) -> (r: Vec<String>)
    ensures
        r.deep_view() == whitespace_split(s@),
        s@.len() == 0 ==> r@.len() == 0,
{
    s.split_whitespace().map(|w| w.to_owned()).collect()
}

/// The plain-text rendering of an HTML document at the given line width, as
/// `html2text`'s plain configuration produces it.
pub uninterp spec fn plain_text_of(html: Seq<char>, width: int) -> Seq<char>;

/// Relies on `html2text::config::plain().string_from_read`: renders HTML to
/// plain text wrapped to `width` columns; the result depends only on the
/// input text and the width. Rendering can fail (for instance when the
/// width is too narrow), in which case this returns `None`.
#[verifier::external_body]
fn render_html(html: &str, width: usize) -> (r: Option<String>)
    ensures
        match r {
            Some(text) => text@ == plain_text_of(html@, width as int),
            None => true,
        },
{
    html2text::config::plain().string_from_read(html.as_bytes(), width).ok()
}

/// Build a document from already-acquired plain text: the tokens are the
/// whitespace-separated words of the text.
pub fn document_from_text(name: String, text: &str) -> (d: Document)
    ensures
        d.name@ == name@,
        d.tokens() == whitespace_split(text@),
{
    let terms = split_whitespace_words(text);
    Document { name, terms }
}

/// Build a document from HTML: the HTML is rendered to plain text at the
/// given line width, then tokenized on whitespace. Returns `None` exactly
/// when the rendering step fails.
pub fn document_from_html(name: String, html: &str, width: usize) -> (r: Option<Document>)
    ensures
        match r {
            Some(d) => {
                &&& d.name@ == name@
                &&& d.tokens() == whitespace_split(plain_text_of(html@, width as int))
            },
            None => true,
        },
{
    match render_html(html, width) {
        Some(text) => Some(document_from_text(name, text.as_str())),
        None => None,
    }
}

} // verus!
