use vstd::prelude::*;
use vstd::string::*;

use lazycell::AtomicLazyCell;

use crate::errors::Error;
use crate::identity::{identity_of, parse_file_name};
use crate::metadata::{
    accepted, fields_wf, head_tags, line_text, max_document_len, opt_text, refusal, summary_text,
    AttrValue, Metadata,
};
use crate::metadata::{
    declared_values, extract, is_multivalued, lemma_line_keeps_values, lemma_summary_keeps_values,
};
use crate::style::{decimal, decimal_text, paint, painted, tone_code, upper_of, uppercase, Tone};
use crate::text::{free_of, has_prefix, join, lemma_shows_within, pieces, shows};

verus! {

#[verifier::external_type_specification]
#[verifier::external_body]
#[verifier::reject_recursive_types(T)]
pub struct ExAtomicLazyCell<T>(AtomicLazyCell<T>);

/// The fields that a metadata cell holds, once it has been filled.
pub uninterp spec fn cached(cell: AtomicLazyCell<Metadata>) -> Option<Seq<(Seq<char>, AttrValue)>>;

/// Relies on lazycell's `AtomicLazyCell::new`: a new cell is empty.
#[verifier::external_body]
fn empty_cell() -> (c: AtomicLazyCell<Metadata>)
    ensures
        cached(c) is None,
{
    AtomicLazyCell::new()
}

/// Relies on lazycell's `AtomicLazyCell::fill`: an empty cell takes the value;
/// a full cell keeps its own and hands the value back. The exclusive borrow
/// rules out a fill from elsewhere at the same time.
#[verifier::external_body]
fn fill_cell(c: &mut AtomicLazyCell<Metadata>, m: Metadata) -> (r: std::result::Result<
    (),
    Metadata,
>)
    ensures
        cached(*old(c)) is None ==> r is Ok && cached(*final(c)) == Some(m@),
        cached(*old(c)) is Some ==> r is Err && cached(*final(c)) == cached(*old(c)),
{
    c.fill(m)
}

/// Relies on lazycell's `AtomicLazyCell::borrow`: the value of a filled cell,
/// nothing for an empty one.
#[verifier::external_body]
fn cell_value(c: &AtomicLazyCell<Metadata>) -> (r: Option<&Metadata>)
    ensures
        match cached(*c) {
            Some(m) => r matches Some(v) && v@ == m,
            None => r is None,
        },
{
    c.borrow()
}

/// Relies on lazycell's `Clone` for `AtomicLazyCell`: the copy of a filled cell
/// holds a clone of its value (and `Metadata::clone` keeps the fields), the
/// copy of an empty cell is empty.
#[verifier::external_body]
fn copy_cell(c: &AtomicLazyCell<Metadata>) -> (r: AtomicLazyCell<Metadata>)
    ensures
        cached(r) == cached(*c),
{
    c.clone()
}

/// The final component of a path, if it has one.
pub uninterp spec fn final_component(path: Seq<char>) -> Option<Seq<char>>;

/// Relies on `std::path::Path::file_name`: the final component of a path,
/// under the path syntax of the platform built for; none for a path that ends
/// in `..` or is a bare root. The path comes from a `str`, so the component
/// is valid UTF-8 and `to_string_lossy` changes nothing.
#[verifier::external_body]
fn file_name(path: &str) -> (r: Option<String>)
    ensures
        opt_text(r) == final_component(path@),
{
    std::path::Path::new(path).file_name().map(|n| n.to_string_lossy().into_owned())
}

/// A document as mathematical values: its identity, its path, and the fields
/// of its metadata once they have been read.
pub struct DocumentView {
    pub id: Seq<char>,
    pub version: int,
    pub path: Seq<char>,
    pub meta: Option<Seq<(Seq<char>, AttrValue)>>,
}

/// One version of one document of the mirror: its identity, where it lies,
/// and its metadata, read at most once.
#[derive(Debug)]
pub struct Document {
    id: String,
    version: i8,
    path: String,
    meta: AtomicLazyCell<Metadata>,
}

impl View for Document {
    type V = DocumentView;

    closed spec fn view(&self) -> DocumentView {
        DocumentView {
            id: self.id@,
            version: self.version as int,
            path: self.path@,
            meta: cached(self.meta),
        }
    }
}

/// Whether a document id names a draft, whose versions are shown.
pub open spec fn is_draft(id: Seq<char>) -> bool {
    "draft"@.is_prefix_of(id)
}

/// The heading of a document: its id and version for a draft, its id in
/// upper case otherwise.
pub open spec fn heading(d: DocumentView, tail: Seq<char>) -> Seq<char> {
    if is_draft(d.id) {
        painted(Tone::Blue, d.id) + " (version "@ + decimal(d.version as nat) + ")"@ + tail
    } else {
        painted(Tone::CyanBold, upper_of(d.id)) + tail
    }
}

/// A document on one line: path, heading, and its fields.
pub open spec fn document_line(d: DocumentView, m: Seq<(Seq<char>, AttrValue)>) -> Seq<char> {
    d.path + " "@ + heading(d, " "@) + painted(Tone::BlackItalic, line_text(m))
}

/// A document as a summary: path and heading, then a paragraph per field.
pub open spec fn document_summary(d: DocumentView, m: Seq<(Seq<char>, AttrValue)>) -> Seq<char> {
    d.path + " "@ + heading(d, "\n\n"@) + painted(Tone::WhiteItalic, summary_text(m))
}

pub open spec fn not_read_message() -> Seq<char> {
    "metadata has not been read yet"@
}

/// The error of a document whose metadata has not been read yet.
pub open spec fn is_retrieval_error(e: Error) -> bool {
    e matches Error::MetadataRetrieval(msg) && msg@ == not_read_message()
}

/// The document that a path names, unread: `None` when the path has no file
/// name or the file name is no candidate document.
pub open spec fn document_at(path: Seq<char>) -> Option<DocumentView> {
    match final_component(path) {
        None => None,
        Some(name) => match identity_of(name) {
            None => None,
            Some(idv) => Some(DocumentView { id: idv.0, version: idv.1, path, meta: None }),
        },
    }
}

/// A path with no file-name component names no document.
pub proof fn lemma_no_file_name(path: Seq<char>)
    requires
        final_component(path) is None,
    ensures
        document_at(path) is None,
{
}

/// A field of several values declared N times keeps the count and order of
/// its declarations in both forms of a document: its line holds `key: ` and
/// the texts joined by `; `, its summary holds `key:\n` and the texts joined
/// by `;\n`, and cutting either list at each `;` gives back the N texts in
/// document order (see `lemma_line_keeps_values`), provided no text holds a
/// `;`.
pub proof fn lemma_document_keeps_values(
    d: DocumentView,
    tags: Seq<(Option<Seq<char>>, Option<Seq<char>>)>,
    key: Seq<char>,
)
    requires
        is_multivalued(key),
        extract(tags) is Ok,
        declared_values(tags, key, tags.len() as int).len() >= 1,
        forall|k: int|
            0 <= k < declared_values(tags, key, tags.len() as int).len() ==> free_of(
                #[trigger] declared_values(tags, key, tags.len() as int)[k],
                ';',
            ),
    ensures
        ({
            let m = extract(tags)->Ok_0;
            let vs = declared_values(tags, key, tags.len() as int);
            &&& shows(document_line(d, m), key + ": "@ + join(vs, "; "@))
            &&& shows(document_summary(d, m), key + ":\n"@ + join(vs, ";\n"@))
            &&& pieces(join(vs, "; "@), ';').len() == vs.len()
            &&& pieces(join(vs, ";\n"@), ';').len() == vs.len()
        }),
{
    let m = extract(tags)->Ok_0;
    let vs = declared_values(tags, key, tags.len() as int);
    lemma_line_keeps_values(tags, key);
    lemma_summary_keeps_values(tags, key);
    let reset = "\x1b[0m"@;
    let line_pre = d.path + " "@ + heading(d, " "@) + tone_code(Tone::BlackItalic);
    assert(document_line(d, m) =~= line_pre + line_text(m) + reset);
    lemma_shows_within(line_pre, line_text(m), reset, key + ": "@ + join(vs, "; "@));
    let sum_pre = d.path + " "@ + heading(d, "\n\n"@) + tone_code(Tone::WhiteItalic);
    assert(document_summary(d, m) =~= sum_pre + summary_text(m) + reset);
    lemma_shows_within(sum_pre, summary_text(m), reset, key + ":\n"@ + join(vs, ";\n"@));
}

impl Document {
    /// A well-formed document: its version is in range and its metadata, once
    /// read, holds each field once with the value kind that the field takes.
    pub open spec fn wf(&self) -> bool {
        &&& 0 <= self@.version <= 127
        &&& self@.meta matches Some(m) ==> fields_wf(m)
    }

    /// The document that a path names, or `None` when its file name is no
    /// candidate document (see `identity_of`). Its metadata is not read yet.
    pub fn from_path(path: String) -> (r: Option<Result<Document, Error>>)
        ensures
            match document_at(path@) {
                None => r is None,
                Some(v) => r matches Some(Ok(d)) && d.wf() && d@ == v,
            },
    {
        let name = match file_name(path.as_str()) {
            Some(name) => name,
            None => return None,
        };
        match parse_file_name(name.as_str()) {
            Some(idv) => {
                let (id, version) = idv;
                Some(Ok(Document { id, version, path, meta: empty_cell() }))
            },
            None => None,
        }
    }

    /// Reads the metadata from the document's bytes, unless it has been read
    /// already: then nothing is extracted and nothing changes. A refused
    /// document keeps its cell empty.
    pub fn ensure_meta(&mut self, html: &[u8]) -> (r: Result<(), Error>)
        requires
            old(self).wf(),
            html@.len() <= max_document_len(),
        ensures
            final(self).wf(),
            final(self)@.id == old(self)@.id,
            final(self)@.version == old(self)@.version,
            final(self)@.path == old(self)@.path,
            old(self)@.meta is Some ==> r is Ok && final(self)@ == old(self)@,
            old(self)@.meta is None ==> (r is Ok <==> accepted(head_tags(html@)) is Some),
            old(self)@.meta is None ==> match r {
                Ok(_) => final(self)@.meta == accepted(head_tags(html@)),
                Err(e) => final(self)@ == old(self)@ && refusal(head_tags(html@), e),
            },
    {
        if cell_value(&self.meta).is_some() {
            return Ok(());
        }
        let meta = match Metadata::from_html(html) {
            Ok(meta) => meta,
            Err(e) => return Err(e),
        };
        match fill_cell(&mut self.meta, meta) {
            Ok(()) => Ok(()),
            Err(_) => Err(Error::MetadataRetrieval(String::from_str("metadata was filled twice"))),
        }
    }

    pub fn id(&self) -> (r: &String)
        ensures
            r@ == self@.id,
    {
        &self.id
    }

    pub fn version(&self) -> (r: &i8)
        ensures
            *r as int == self@.version,
    {
        &self.version
    }

    pub fn path(&self) -> (r: &String)
        ensures
            r@ == self@.path,
    {
        &self.path
    }

    /// The metadata, once it has been read.
    pub fn meta(&self) -> (r: Result<&Metadata, Error>)
        ensures
            match self@.meta {
                Some(m) => r matches Ok(md) && md@ == m,
                None => r matches Err(e) && is_retrieval_error(e),
            },
    {
        match cell_value(&self.meta) {
            Some(m) => Ok(m),
            None => Err(
                Error::MetadataRetrieval(String::from_str("metadata has not been read yet")),
            ),
        }
    }

    fn fmt_heading(&self, tail: &str) -> (r: String)
        requires
            self.wf(),
        ensures
            r@ == self@.path + " "@ + heading(self@, tail@),
    {
        let mut out = String::from_str(self.path.as_str());
        out.append(" ");
        if has_prefix(self.id.as_str(), "draft") {
            let name = paint(Tone::Blue, self.id.as_str());
            out.append(name.as_str());
            out.append(" (version ");
            let number = decimal_text(self.version as u8);
            out.append(number.as_str());
            out.append(")");
        } else {
            let upper = uppercase(self.id.as_str());
            let name = paint(Tone::CyanBold, upper.as_str());
            out.append(name.as_str());
        }
        out.append(tail);
        out
    }

    /// The document on one line: path, heading, and fields.
    pub fn fmt_line(&self) -> (r: Result<String, Error>)
        requires
            self.wf(),
        ensures
            match self@.meta {
                Some(m) => r matches Ok(s) && s@ == document_line(self@, m),
                None => r matches Err(e) && is_retrieval_error(e),
            },
    {
        let meta = match self.meta() {
            Ok(meta) => meta,
            Err(e) => return Err(e),
        };
        let mut out = self.fmt_heading(" ");
        let fields = meta.fmt_line();
        let shown = paint(Tone::BlackItalic, fields.as_str());
        out.append(shown.as_str());
        Ok(out)
    }

    /// The document as a summary: path and heading, then its fields as
    /// paragraphs.
    pub fn fmt_summary(&self) -> (r: Result<String, Error>)
        requires
            self.wf(),
        ensures
            match self@.meta {
                Some(m) => r matches Ok(s) && s@ == document_summary(self@, m),
                None => r matches Err(e) && is_retrieval_error(e),
            },
    {
        let meta = match self.meta() {
            Ok(meta) => meta,
            Err(e) => return Err(e),
        };
        let mut out = self.fmt_heading("\n\n");
        let fields = meta.fmt_summary();
        let shown = paint(Tone::WhiteItalic, fields.as_str());
        out.append(shown.as_str());
        Ok(out)
    }
}

impl Clone for Document {
    fn clone(&self) -> (r: Self)
        ensures
            r@ == self@,
    {
        Document {
            id: self.id.clone(),
            version: self.version,
            path: self.path.clone(),
            meta: copy_cell(&self.meta),
        }
    }
}

} // verus!
