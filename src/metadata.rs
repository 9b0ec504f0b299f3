use vstd::prelude::*;
use vstd::string::*;
use kuchiki::traits::TendrilSink;

use crate::errors::Error;
use crate::text::{
    flatten_lines, flatten_text, free_of, has_prefix, join, join_texts, lemma_join_shows,
    lemma_join_then_cut, lemma_shows_within, pieces, same_text, shows, texts,
};

verus! {

/// The value of one metadata field: a single text, or the texts of a field
/// that may be declared many times, in document order.
#[derive(Debug)]
pub enum MetadataAttr {
    One(String),
    Many(Vec<String>),
}

/// What a metadata field holds, as mathematical text.
pub enum AttrValue {
    One(Seq<char>),
    Many(Seq<Seq<char>>),
}

impl View for MetadataAttr {
    type V = AttrValue;

    open spec fn view(&self) -> AttrValue {
        match self {
            MetadataAttr::One(s) => AttrValue::One(s@),
            MetadataAttr::Many(v) => AttrValue::Many(texts(v@)),
        }
    }
}

fn clone_texts(v: &Vec<String>) -> (r: Vec<String>)
    ensures
        texts(r@) == texts(v@),
{
    let mut r: Vec<String> = Vec::new();
    let mut i: usize = 0;
    while i < v.len()
        invariant
            i <= v@.len(),
            texts(r@) =~= texts(v@.subrange(0, i as int)),
        decreases v@.len() - i,
    {
        let c = v[i].clone();
        assert(c@ == v@[i as int]@);
        let ghost r0 = r@;
        r.push(c);
        i = i + 1;
        assert(r@ =~= r0.push(c));
        assert(texts(r@) =~= texts(r0).push(c@));
        assert(v@.subrange(0, i as int) =~= v@.subrange(0, i - 1).push(v@[i - 1]));
        assert(texts(r@) =~= texts(v@.subrange(0, i as int)));
    }
    assert(v@.subrange(0, i as int) =~= v@);
    r
}

impl Clone for MetadataAttr {
    fn clone(&self) -> (r: Self)
        ensures
            r@ == self@,
    {
        match self {
            MetadataAttr::One(s) => MetadataAttr::One(s.clone()),
            MetadataAttr::Many(v) => MetadataAttr::Many(clone_texts(v)),
        }
    }
}

/// One `<meta>` element of a document head: its `name` and `content`
/// attributes, where present.
#[derive(Debug)]
pub struct MetaTag {
    pub name: Option<String>,
    pub content: Option<String>,
}

pub open spec fn opt_text(o: Option<String>) -> Option<Seq<char>> {
    match o {
        Some(s) => Some(s@),
        None => None,
    }
}

impl View for MetaTag {
    type V = (Option<Seq<char>>, Option<Seq<char>>);

    open spec fn view(&self) -> (Option<Seq<char>>, Option<Seq<char>>) {
        (opt_text(self.name), opt_text(self.content))
    }
}

pub open spec fn tags_view(v: Seq<MetaTag>) -> Seq<(Option<Seq<char>>, Option<Seq<char>>)> {
    v.map_values(|t: MetaTag| t@)
}

/// The mapping from field name to value that a document declares, each field
/// once, in the order of first declaration.
#[derive(Debug)]
pub struct Metadata {
    entries: Vec<(String, MetadataAttr)>,
}

pub open spec fn entries_view(v: Seq<(String, MetadataAttr)>) -> Seq<(Seq<char>, AttrValue)> {
    v.map_values(|e: (String, MetadataAttr)| (e.0@, e.1@))
}

impl View for Metadata {
    type V = Seq<(Seq<char>, AttrValue)>;

    closed spec fn view(&self) -> Seq<(Seq<char>, AttrValue)> {
        entries_view(self.entries@)
    }
}

/// The prefix that marks a `<meta>` name as a metadata field.
pub open spec fn field_prefix() -> Seq<char> {
    "DC."@
}

/// The fields that may be declared more than once.
pub open spec fn is_multivalued(key: Seq<char>) -> bool {
    key == "Creator"@ || key == "Relation.Replaces"@
}

/// The field and text that a `<meta>` element contributes, if any: it needs
/// both attributes, and a name that carries the field prefix.
pub open spec fn tag_field(tag: (Option<Seq<char>>, Option<Seq<char>>)) -> Option<
    (Seq<char>, Seq<char>),
> {
    match tag.0 {
        Some(name) => if field_prefix().is_prefix_of(name) {
            match tag.1 {
                Some(content) => Some((name.skip(field_prefix().len() as int), content)),
                None => None,
            }
        } else {
            None
        },
        None => None,
    }
}

/// Index of the entry for `key`, or -1.
pub open spec fn find_field(m: Seq<(Seq<char>, AttrValue)>, key: Seq<char>) -> int
    decreases m.len(),
{
    if m.len() == 0 {
        -1
    } else if m.last().0 == key {
        m.len() - 1
    } else {
        find_field(m.drop_last(), key)
    }
}

/// Why a document's metadata is refused.
pub enum ExtractError {
    Duplicate(Seq<char>),
    TypeMismatch(Seq<char>),
}

/// Records one declaration of `key` with text `content`.
pub open spec fn record_field(m: Seq<(Seq<char>, AttrValue)>, key: Seq<char>, content: Seq<char>) -> Result<
    Seq<(Seq<char>, AttrValue)>,
    ExtractError,
> {
    let i = find_field(m, key);
    if i < 0 {
        if is_multivalued(key) {
            Ok(m.push((key, AttrValue::Many(seq![content]))))
        } else {
            Ok(m.push((key, AttrValue::One(content))))
        }
    } else if is_multivalued(key) {
        match m[i].1 {
            AttrValue::One(_) => Err(ExtractError::TypeMismatch(key)),
            AttrValue::Many(vs) => Ok(m.update(i, (key, AttrValue::Many(vs.push(content))))),
        }
    } else {
        Err(ExtractError::Duplicate(key))
    }
}

/// The metadata that the first `n` elements declare, in document order.
pub open spec fn extract_upto(tags: Seq<(Option<Seq<char>>, Option<Seq<char>>)>, n: int) -> Result<
    Seq<(Seq<char>, AttrValue)>,
    ExtractError,
>
    decreases n,
{
    if n <= 0 {
        Ok(Seq::empty())
    } else {
        match extract_upto(tags, n - 1) {
            Err(e) => Err(e),
            Ok(m) => match tag_field(tags[n - 1]) {
                None => Ok(m),
                Some(f) => record_field(m, f.0, f.1),
            },
        }
    }
}

/// The metadata that a sequence of `<meta>` elements declares.
pub open spec fn extract(tags: Seq<(Option<Seq<char>>, Option<Seq<char>>)>) -> Result<
    Seq<(Seq<char>, AttrValue)>,
    ExtractError,
> {
    extract_upto(tags, tags.len() as int)
}

pub open spec fn duplicate_message(key: Seq<char>) -> Seq<char> {
    "Got unexpected duplicate attribute '"@ + key + "'"@
}

pub open spec fn mismatch_message(key: Seq<char>) -> Seq<char> {
    "Expected multivalued attribute type for '"@ + key + "'"@
}

pub open spec fn not_found_message() -> Seq<char> {
    "No <meta/> tags found in document <head/>"@
}

/// The fields that a head declares, when it is accepted: extraction succeeds
/// and yields at least one field.
pub open spec fn accepted(tags: Seq<(Option<Seq<char>>, Option<Seq<char>>)>) -> Option<
    Seq<(Seq<char>, AttrValue)>,
> {
    match extract(tags) {
        Ok(m) => if m.len() > 0 {
            Some(m)
        } else {
            None
        },
        Err(_) => None,
    }
}

pub open spec fn is_not_found(e: Error) -> bool {
    e matches Error::MetadataNotFound(msg) && msg@ == not_found_message()
}

/// The error by which a head is refused.
pub open spec fn refusal(tags: Seq<(Option<Seq<char>>, Option<Seq<char>>)>, e: Error) -> bool {
    match extract(tags) {
        Ok(m) => m.len() == 0 && is_not_found(e),
        Err(ExtractError::Duplicate(k)) => e matches Error::DuplicateAttribute(msg) && msg@
            == duplicate_message(k),
        Err(ExtractError::TypeMismatch(k)) => e matches Error::AttributeTypeMismatch(msg) && msg@
            == mismatch_message(k),
    }
}

/// The outcome of extraction as the library reports it: the accepted fields,
/// or the refusal.
pub open spec fn extraction_result(tags: Seq<(Option<Seq<char>>, Option<Seq<char>>)>, r: Result<Metadata, Error>) -> bool {
    match r {
        Ok(md) => accepted(tags) == Some(md@),
        Err(e) => refusal(tags, e),
    }
}

/// The `<meta>` elements that `selector` picks out of a document, with the
/// values of attributes `a` and `b` of each, in document order.
pub uninterp spec fn selected_attrs(html: Seq<u8>, selector: Seq<char>, a: Seq<char>, b: Seq<char>) -> Seq<(Option<Seq<char>>, Option<Seq<char>>)>;

/// The largest document, in bytes, that the markup parser takes in one piece.
pub open spec fn max_document_len() -> nat {
    0xffff_ffff
}

/// The `<meta>` elements anywhere under a document's head, with their `name` and
/// `content` attributes.
pub open spec fn head_tags(html: Seq<u8>) -> Seq<(Option<Seq<char>>, Option<Seq<char>>)> {
    selected_attrs(html, "head meta"@, "name"@, "content"@)
}

/// Relies on kuchiki: `parse_html().from_utf8().one` builds the document tree
/// (invalid UTF-8 is replaced, markup errors are recovered from), `select`
/// lists the elements matching a CSS selector in document order and fails
/// only on a selector that `Selectors::compile` cannot parse (the descendant
/// selector `head meta` parses), and `Attributes::get` reads one attribute
/// of an element. The bytes become one tendril, which holds at most
/// `u32::MAX` bytes and panics beyond that.
#[verifier::external_body]
fn select_attrs(html: &[u8], selector: &str, a: &str, b: &str) -> (r: std::result::Result<Vec<MetaTag>, ()>)
    requires
        html@.len() <= max_document_len(),
    ensures
        r matches Ok(tags) ==> tags_view(tags@) == selected_attrs(html@, selector@, a@, b@),
        selector@ == "head meta"@ ==> r is Ok,
{
    let doc = kuchiki::parse_html().from_utf8().one(html);
    let nodes = doc.select(selector)?;
    Ok(nodes.map(|node| {
        let attrs = node.attributes.borrow();
        MetaTag { name: attrs.get(a).map(|v| v.to_string()), content: attrs.get(b).map(|v| v.to_string()) }
    }).collect())
}

proof fn lemma_find_field_bounds(m: Seq<(Seq<char>, AttrValue)>, key: Seq<char>)
    ensures
        -1 <= find_field(m, key) < m.len(),
        find_field(m, key) >= 0 ==> m[find_field(m, key)].0 == key,
        forall|j: int| find_field(m, key) < j < m.len() ==> m[j].0 != key,
    decreases m.len(),
{
    if m.len() > 0 && m.last().0 != key {
        lemma_find_field_bounds(m.drop_last(), key);
        assert forall|j: int| find_field(m, key) < j < m.len() implies m[j].0 != key by {
            if j < m.len() - 1 {
                assert(m[j] == m.drop_last()[j]);
            }
        }
    }
}

proof fn lemma_find_field_at(m: Seq<(Seq<char>, AttrValue)>, key: Seq<char>, i: int)
    requires
        0 <= i < m.len(),
        m[i].0 == key,
        forall|j: int| i < j < m.len() ==> m[j].0 != key,
    ensures
        find_field(m, key) == i,
    decreases m.len(),
{
    if i < m.len() - 1 {
        assert(m.drop_last()[i] == m[i]);
        lemma_find_field_at(m.drop_last(), key, i);
    }
}

/// Each field once; the fields that may repeat hold a list, the others one text.
pub open spec fn fields_wf(m: Seq<(Seq<char>, AttrValue)>) -> bool {
    &&& forall|i: int, j: int| 0 <= i < j < m.len() ==> m[i].0 != m[j].0
    &&& forall|i: int| 0 <= i < m.len() ==> (is_multivalued(m[i].0) <==> m[i].1 is Many)
}

proof fn lemma_extract_wf(tags: Seq<(Option<Seq<char>>, Option<Seq<char>>)>, n: int)
    ensures
        extract_upto(tags, n) matches Ok(m) ==> fields_wf(m),
    decreases n,
{
    if n > 0 {
        lemma_extract_wf(tags, n - 1);
        if let Ok(m) = extract_upto(tags, n - 1) {
            if let Some(f) = tag_field(tags[n - 1]) {
                lemma_find_field_bounds(m, f.0);
            }
        }
    }
}

proof fn lemma_extract_err_stays(tags: Seq<(Option<Seq<char>>, Option<Seq<char>>)>, n: int)
    requires
        0 <= n <= tags.len(),
        extract_upto(tags, n) is Err,
    ensures
        extract(tags) == extract_upto(tags, n),
    decreases tags.len() - n,
{
    if n < tags.len() {
        assert(extract_upto(tags, n + 1) == extract_upto(tags, n));
        lemma_extract_err_stays(tags, n + 1);
    }
}

pub open spec fn has_field(m: Seq<(Seq<char>, AttrValue)>, key: Seq<char>) -> bool {
    exists|x: int| 0 <= x < m.len() && #[trigger] m[x].0 == key
}

proof fn lemma_find_field_has(m: Seq<(Seq<char>, AttrValue)>, key: Seq<char>)
    ensures
        has_field(m, key) <==> find_field(m, key) >= 0,
{
    lemma_find_field_bounds(m, key);
    if find_field(m, key) >= 0 {
        assert(m[find_field(m, key)].0 == key);
    }
}

/// Extraction never meets a field of several values holding one text: the
/// only refusal it can give is a duplicate.
proof fn lemma_only_duplicates(tags: Seq<(Option<Seq<char>>, Option<Seq<char>>)>, n: int)
    ensures
        extract_upto(tags, n) is Err ==> extract_upto(tags, n) matches Err(
            ExtractError::Duplicate(_),
        ),
    decreases n,
{
    if n > 0 {
        lemma_only_duplicates(tags, n - 1);
        lemma_extract_wf(tags, n - 1);
        if let Ok(m) = extract_upto(tags, n - 1) {
            if let Some(f) = tag_field(tags[n - 1]) {
                lemma_find_field_bounds(m, f.0);
            }
        }
    }
}

/// Once a field has been declared, it stays among the fields while
/// extraction goes on.
proof fn lemma_field_stays(
    tags: Seq<(Option<Seq<char>>, Option<Seq<char>>)>,
    i: int,
    n: int,
    key: Seq<char>,
)
    requires
        0 <= i < n <= tags.len(),
        tag_field(tags[i]) matches Some(f) && f.0 == key,
        extract_upto(tags, n) is Ok,
    ensures
        has_field(extract_upto(tags, n)->Ok_0, key),
    decreases n,
{
    let prev = extract_upto(tags, n - 1);
    assert(prev is Ok);
    let m = prev->Ok_0;
    if n - 1 > i {
        lemma_field_stays(tags, i, n - 1, key);
    }
    lemma_find_field_bounds(m, key);
    if let Some(f) = tag_field(tags[n - 1]) {
        lemma_find_field_bounds(m, f.0);
        let r = extract_upto(tags, n)->Ok_0;
        if n - 1 == i {
            if find_field(m, f.0) < 0 {
                assert(r[m.len() as int].0 == key);
            } else {
                assert(r[find_field(m, f.0)].0 == key);
            }
        } else {
            let y = choose|y: int| 0 <= y < m.len() && #[trigger] m[y].0 == key;
            assert(r[y].0 == key);
        }
    }
}

/// A field of one value declared twice makes the document's metadata
/// refused as a duplicate.
pub proof fn lemma_single_valued_twice(
    tags: Seq<(Option<Seq<char>>, Option<Seq<char>>)>,
    i: int,
    j: int,
    key: Seq<char>,
)
    requires
        0 <= i < j < tags.len(),
        !is_multivalued(key),
        tag_field(tags[i]) matches Some(f) && f.0 == key,
        tag_field(tags[j]) matches Some(f) && f.0 == key,
    ensures
        extract(tags) matches Err(ExtractError::Duplicate(_)),
{
    lemma_only_duplicates(tags, j + 1);
    if extract_upto(tags, j) is Ok {
        lemma_field_stays(tags, i, j, key);
        lemma_find_field_has(extract_upto(tags, j)->Ok_0, key);
    }
    assert(extract_upto(tags, j + 1) is Err);
    lemma_extract_err_stays(tags, j + 1);
}

/// The texts declared for `key` by the first `n` elements, in order.
pub open spec fn declared_values(
    tags: Seq<(Option<Seq<char>>, Option<Seq<char>>)>,
    key: Seq<char>,
    n: int,
) -> Seq<Seq<char>>
    decreases n,
{
    if n <= 0 {
        Seq::empty()
    } else {
        let rest = declared_values(tags, key, n - 1);
        match tag_field(tags[n - 1]) {
            Some(f) => if f.0 == key {
                rest.push(f.1)
            } else {
                rest
            },
            None => rest,
        }
    }
}

proof fn lemma_collects_upto(
    tags: Seq<(Option<Seq<char>>, Option<Seq<char>>)>,
    key: Seq<char>,
    n: int,
)
    requires
        is_multivalued(key),
        0 <= n <= tags.len(),
        extract_upto(tags, n) is Ok,
    ensures
        ({
            let m = extract_upto(tags, n)->Ok_0;
            let vs = declared_values(tags, key, n);
            if vs.len() == 0 {
                !has_field(m, key)
            } else {
                find_field(m, key) >= 0 && m[find_field(m, key)].1 == AttrValue::Many(vs)
            }
        }),
    decreases n,
{
    if n > 0 {
        let prev = extract_upto(tags, n - 1);
        assert(prev is Ok);
        let m = prev->Ok_0;
        lemma_collects_upto(tags, key, n - 1);
        lemma_find_field_has(m, key);
        lemma_find_field_bounds(m, key);
        if let Some(f) = tag_field(tags[n - 1]) {
            let r = extract_upto(tags, n)->Ok_0;
            lemma_find_field_bounds(m, f.0);
            let at = find_field(m, f.0);
            let vs0 = declared_values(tags, key, n - 1);
            if f.0 == key {
                assert(declared_values(tags, key, n) == vs0.push(f.1));
                if at < 0 {
                    assert(vs0.len() == 0);
                    assert(r == m.push((key, AttrValue::Many(seq![f.1]))));
                    assert(vs0.push(f.1) =~= seq![f.1]);
                    lemma_find_field_at(r, key, m.len() as int);
                } else {
                    assert(vs0.len() > 0);
                    assert(m[at].1 == AttrValue::Many(vs0));
                    assert(r == m.update(at, (key, AttrValue::Many(vs0.push(f.1)))));
                    assert forall|j: int| at < j < r.len() implies r[j].0 != key by {
                        assert(r[j] == m[j]);
                    }
                    lemma_find_field_at(r, key, at);
                }
            } else {
                if has_field(m, key) {
                    let k = find_field(m, key);
                    assert(r[k] == m[k]);
                    assert forall|j: int| k < j < r.len() implies r[j].0 != key by {
                        if j < m.len() {
                            assert(r[j].0 == m[j].0);
                        }
                    }
                    lemma_find_field_at(r, key, k);
                } else {
                    assert forall|x: int| 0 <= x < r.len() implies #[trigger] r[x].0 != key by {
                        if x < m.len() {
                            assert(r[x].0 == m[x].0);
                        }
                    }
                }
            }
        }
    }
}

/// A field of several values collects every declaration, in document order:
/// when the document's metadata is accepted, the field holds exactly the
/// declared texts, and it is absent when none was declared.
pub proof fn lemma_multivalued_collects(
    tags: Seq<(Option<Seq<char>>, Option<Seq<char>>)>,
    key: Seq<char>,
)
    requires
        is_multivalued(key),
        extract(tags) is Ok,
    ensures
        ({
            let m = extract(tags)->Ok_0;
            let vs = declared_values(tags, key, tags.len() as int);
            if vs.len() == 0 {
                !has_field(m, key)
            } else {
                find_field(m, key) >= 0 && m[find_field(m, key)].1 == AttrValue::Many(vs)
            }
        }),
{
    lemma_collects_upto(tags, key, tags.len() as int);
}

fn text_message(head: &str, key: &str, tail: &str) -> (r: String)
    ensures
        r@ == head@ + key@ + tail@,
{
    let mut s = String::from_str(head);
    s.append(key);
    s.append(tail);
    s
}

/// Finds the entry for `key` among `entries`.
fn find_entry(entries: &Vec<(String, MetadataAttr)>, key: &String) -> (r: Option<usize>)
    ensures
        match r {
            Some(i) => i < entries@.len() && i as int == find_field(entries_view(entries@), key@),
            None => find_field(entries_view(entries@), key@) == -1,
        },
{
    let ghost m = entries_view(entries@);
    let mut i: usize = entries.len();
    while i > 0
        invariant
            i <= entries@.len(),
            m == entries_view(entries@),
            forall|j: int| i <= j < m.len() ==> m[j].0 != key@,
        decreases i,
    {
        if entries[i - 1].0 == *key {
            proof {
                lemma_find_field_at(m, key@, i - 1);
            }
            return Some(i - 1);
        }
        i = i - 1;
    }
    proof {
        lemma_find_field_bounds(m, key@);
    }
    None
}

/// The field and text that one `<meta>` element contributes, if any.
fn field_of(tag: &MetaTag) -> (r: Option<(String, String)>)
    ensures
        match tag_field(tag@) {
            Some(f) => r matches Some(p) && p.0@ == f.0 && p.1@ == f.1,
            None => r is None,
        },
{
    match &tag.name {
        Some(name) => {
            let prefix = "DC.";
            if has_prefix(name.as_str(), prefix) {
                match &tag.content {
                    Some(content) => {
                        let n = name.as_str().unicode_len();
                        let key = name.as_str().substring_char(prefix.unicode_len(), n);
                        assert(key@ =~= name@.skip(field_prefix().len() as int));
                        Some((String::from_str(key), content.clone()))
                    },
                    None => None,
                }
            } else {
                None
            }
        },
        None => None,
    }
}

fn multivalued(key: &String) -> (r: bool)
    ensures
        r == is_multivalued(key@),
{
    same_text(key.as_str(), "Creator") || same_text(key.as_str(), "Relation.Replaces")
}

/// How one field is shown: its name, `keyval_sep`, then its text (line feeds
/// turned into spaces where `flat`) or its texts joined by `val_sep`.
pub open spec fn render_field(
    field: (Seq<char>, AttrValue),
    keyval_sep: Seq<char>,
    val_sep: Seq<char>,
    flat: bool,
) -> Seq<char> {
    field.0 + keyval_sep + match field.1 {
        AttrValue::One(s) => if flat {
            flatten_lines(s)
        } else {
            s
        },
        AttrValue::Many(vs) => join(vs, val_sep),
    }
}

/// All fields shown in order, separated by `attr_sep`.
pub open spec fn render_fields(
    m: Seq<(Seq<char>, AttrValue)>,
    attr_sep: Seq<char>,
    keyval_sep: Seq<char>,
    val_sep: Seq<char>,
    flat: bool,
) -> Seq<char> {
    join(m.map_values(|f: (Seq<char>, AttrValue)| render_field(f, keyval_sep, val_sep, flat)), attr_sep)
}

/// The one-line form: fields between angle brackets, on one line.
pub open spec fn line_text(m: Seq<(Seq<char>, AttrValue)>) -> Seq<char> {
    "<"@ + render_fields(m, " // "@, ": "@, "; "@, true) + ">"@
}

/// The multi-paragraph form: one paragraph per field.
pub open spec fn summary_text(m: Seq<(Seq<char>, AttrValue)>) -> Seq<char> {
    render_fields(m, "\n\n"@, ":\n"@, ";\n"@, false)
}

/// Each field's text shows in the text of all fields.
proof fn lemma_field_shows(
    m: Seq<(Seq<char>, AttrValue)>,
    i: int,
    attr_sep: Seq<char>,
    keyval_sep: Seq<char>,
    val_sep: Seq<char>,
    flat: bool,
)
    requires
        0 <= i < m.len(),
    ensures
        shows(
            render_fields(m, attr_sep, keyval_sep, val_sep, flat),
            render_field(m[i], keyval_sep, val_sep, flat),
        ),
{
    let fields = m.map_values(
        |f: (Seq<char>, AttrValue)| render_field(f, keyval_sep, val_sep, flat),
    );
    lemma_join_shows(fields, attr_sep, i);
}

/// What declaring a field of several values shows: with `val_sep` between
/// the declared texts, cutting the list at `val_sep`'s first character gives
/// back one piece per declaration, in document order (each after the first
/// preceded by the rest of the separator), provided no text holds that
/// character.
proof fn lemma_values_shown(
    tags: Seq<(Option<Seq<char>>, Option<Seq<char>>)>,
    key: Seq<char>,
    attr_sep: Seq<char>,
    keyval_sep: Seq<char>,
    val_sep: Seq<char>,
    flat: bool,
)
    requires
        is_multivalued(key),
        extract(tags) is Ok,
        declared_values(tags, key, tags.len() as int).len() >= 1,
        val_sep.len() >= 1,
        free_of(val_sep.skip(1), val_sep[0]),
        forall|k: int|
            0 <= k < declared_values(tags, key, tags.len() as int).len() ==> free_of(
                #[trigger] declared_values(tags, key, tags.len() as int)[k],
                val_sep[0],
            ),
    ensures
        ({
            let m = extract(tags)->Ok_0;
            let vs = declared_values(tags, key, tags.len() as int);
            let shown = join(vs, val_sep);
            &&& shows(render_fields(m, attr_sep, keyval_sep, val_sep, flat), key + keyval_sep + shown)
            &&& pieces(shown, val_sep[0]) == Seq::new(
                vs.len(),
                |k: int| if k == 0 {
                    vs[0]
                } else {
                    val_sep.skip(1) + vs[k]
                },
            )
        }),
{
    lemma_multivalued_collects(tags, key);
    let vs = declared_values(tags, key, tags.len() as int);
    lemma_join_then_cut(vs, val_sep);
    let m = extract(tags)->Ok_0;
    lemma_find_field_bounds(m, key);
    lemma_field_shows(m, find_field(m, key), attr_sep, keyval_sep, val_sep, flat);
}

/// Declaring a field of several values N times and showing the metadata as a
/// summary keeps the count and order of the declarations: the summary holds
/// the field's paragraph `key:\n` and the texts joined by `;\n`, and cutting
/// that list at each `;` gives N pieces, the declared texts in document
/// order (each after the first preceded by a line feed), provided no text
/// holds a `;`.
pub proof fn lemma_summary_keeps_values(
    tags: Seq<(Option<Seq<char>>, Option<Seq<char>>)>,
    key: Seq<char>,
)
    requires
        is_multivalued(key),
        extract(tags) is Ok,
        declared_values(tags, key, tags.len() as int).len() >= 1,
        forall|k: int|
            0 <= k < declared_values(tags, key, tags.len() as int).len() ==> free_of(
                #[trigger] declared_values(tags, key, tags.len() as int)[k],
                ';',
            ),
    ensures
        ({
            let m = extract(tags)->Ok_0;
            let vs = declared_values(tags, key, tags.len() as int);
            let shown = join(vs, ";\n"@);
            &&& shows(summary_text(m), key + ":\n"@ + shown)
            &&& pieces(shown, ';') == Seq::new(
                vs.len(),
                |k: int| if k == 0 {
                    vs[0]
                } else {
                    "\n"@ + vs[k]
                },
            )
        }),
{
    reveal_strlit(";\n");
    reveal_strlit("\n");
    let sep = ";\n"@;
    assert(sep.skip(1) =~= "\n"@);
    lemma_values_shown(tags, key, "\n\n"@, ":\n"@, sep, false);
}

/// The same for the one-line form: the line holds `key: ` and the texts
/// joined by `; `, and cutting that list at each `;` gives N pieces, the
/// declared texts in document order (each after the first preceded by a
/// space), provided no text holds a `;`.
pub proof fn lemma_line_keeps_values(
    tags: Seq<(Option<Seq<char>>, Option<Seq<char>>)>,
    key: Seq<char>,
)
    requires
        is_multivalued(key),
        extract(tags) is Ok,
        declared_values(tags, key, tags.len() as int).len() >= 1,
        forall|k: int|
            0 <= k < declared_values(tags, key, tags.len() as int).len() ==> free_of(
                #[trigger] declared_values(tags, key, tags.len() as int)[k],
                ';',
            ),
    ensures
        ({
            let m = extract(tags)->Ok_0;
            let vs = declared_values(tags, key, tags.len() as int);
            let shown = join(vs, "; "@);
            &&& shows(line_text(m), key + ": "@ + shown)
            &&& pieces(shown, ';') == Seq::new(
                vs.len(),
                |k: int| if k == 0 {
                    vs[0]
                } else {
                    " "@ + vs[k]
                },
            )
        }),
{
    reveal_strlit("; ");
    reveal_strlit(" ");
    let sep = "; "@;
    assert(sep.skip(1) =~= " "@);
    let m = extract(tags)->Ok_0;
    let vs = declared_values(tags, key, tags.len() as int);
    lemma_values_shown(tags, key, " // "@, ": "@, sep, true);
    lemma_shows_within(
        "<"@,
        render_fields(m, " // "@, ": "@, sep, true),
        ">"@,
        key + ": "@ + join(vs, sep),
    );
}

impl Clone for Metadata {
    fn clone(&self) -> (r: Self)
        ensures
            r@ == self@,
    {
        let mut entries: Vec<(String, MetadataAttr)> = Vec::new();
        let mut i: usize = 0;
        while i < self.entries.len()
            invariant
                i <= self.entries@.len(),
                entries_view(entries@) =~= entries_view(self.entries@.subrange(0, i as int)),
            decreases self.entries@.len() - i,
        {
            let ghost prev = entries@;
            let k = self.entries[i].0.clone();
            let v = self.entries[i].1.clone();
            assert(k@ == self.entries@[i as int].0@);
            assert(v@ == self.entries@[i as int].1@);
            entries.push((k, v));
            i = i + 1;
            assert(entries@ =~= prev.push((k, v)));
            assert(self.entries@.subrange(0, i as int) =~= self.entries@.subrange(0, i - 1).push(
                self.entries@[i - 1],
            ));
            assert(entries_view(entries@) =~= entries_view(prev).push((k@, v@)));
            assert(entries_view(self.entries@.subrange(0, i as int)) =~= entries_view(
                self.entries@.subrange(0, i - 1),
            ).push((k@, v@)));
        }
        assert(self.entries@.subrange(0, i as int) =~= self.entries@);
        Metadata { entries }
    }
}

impl Metadata {
    fn fmt(&self, attr_sep: &str, keyval_sep: &str, val_sep: &str, replace_nl: bool) -> (r: String)
        ensures
            r@ == render_fields(self@, attr_sep@, keyval_sep@, val_sep@, replace_nl),
    {
        let ghost fields = self@.map_values(
            |f: (Seq<char>, AttrValue)| render_field(f, keyval_sep@, val_sep@, replace_nl),
        );
        let mut parts: Vec<String> = Vec::new();
        let mut i: usize = 0;
        while i < self.entries.len()
            invariant
                i <= self.entries@.len(),
                fields.len() == self.entries@.len(),
                fields == self@.map_values(
                    |f: (Seq<char>, AttrValue)| render_field(f, keyval_sep@, val_sep@, replace_nl),
                ),
                texts(parts@) =~= fields.subrange(0, i as int),
            decreases self.entries@.len() - i,
        {
            let ghost prev = parts@;
            let mut part = String::from_str(self.entries[i].0.as_str());
            part.append(keyval_sep);
            match &self.entries[i].1 {
                MetadataAttr::One(value) => {
                    if replace_nl {
                        let flat = flatten_text(value.as_str());
                        part.append(flat.as_str());
                    } else {
                        part.append(value.as_str());
                    }
                },
                MetadataAttr::Many(values) => {
                    let joined = join_texts(values, val_sep);
                    part.append(joined.as_str());
                },
            }
            assert(part@ == fields[i as int]);
            parts.push(part);
            i = i + 1;
            assert(parts@ =~= prev.push(part));
            assert(texts(parts@) =~= texts(prev).push(part@));
            assert(fields.subrange(0, i as int) =~= fields.subrange(0, i - 1).push(fields[i - 1]));
            assert(texts(parts@) =~= fields.subrange(0, i as int));
        }
        assert(fields.subrange(0, i as int) =~= fields);
        join_texts(&parts, attr_sep)
    }

    /// The number of fields.
    pub fn len(&self) -> (r: usize)
        ensures
            r == self@.len(),
    {
        self.entries.len()
    }

    /// The value of field `key`, if the document declares it.
    pub fn get(&self, key: &str) -> (r: Option<&MetadataAttr>)
        ensures
            match r {
                Some(v) => find_field(self@, key@) >= 0 && v@ == self@[find_field(self@, key@)].1,
                None => find_field(self@, key@) == -1,
            },
    {
        let k = String::from_str(key);
        match find_entry(&self.entries, &k) {
            Some(i) => Some(&self.entries[i].1),
            None => None,
        }
    }

    /// The fields on one line: `<Name: text // Name: a; b>`, line feeds inside
    /// a text turned into spaces.
    pub fn fmt_line(&self) -> (r: String)
        ensures
            r@ == line_text(self@),
    {
        let body = self.fmt(" // ", ": ", "; ", true);
        let mut r = String::from_str("<");
        r.append(body.as_str());
        r.append(">");
        r
    }

    /// The fields as paragraphs: `Name:\ntext`, a list's texts one per line.
    pub fn fmt_summary(&self) -> (r: String)
        ensures
            r@ == summary_text(self@),
    {
        self.fmt("\n\n", ":\n", ";\n", false)
    }

    pub open spec fn wf(&self) -> bool {
        fields_wf(self@)
    }

    /// Builds the metadata that the `<meta>` elements of a document head
    /// declare, taken in document order: a field of several values collects
    /// them in that order, a field of one value declared twice is refused,
    /// and a head that declares no field at all is refused too.
    pub fn from_tags(tags: &Vec<MetaTag>) -> (r: Result<Metadata, Error>)
        ensures
            extraction_result(tags_view(tags@), r),
            r matches Ok(md) ==> md.wf(),
    {
        let ghost tv = tags_view(tags@);
        let mut entries: Vec<(String, MetadataAttr)> = Vec::new();
        assert(entries_view(entries@) =~= Seq::empty());
        let mut i: usize = 0;
        while i < tags.len()
            invariant
                i <= tags@.len(),
                tv == tags_view(tags@),
                extract_upto(tv, i as int) == Ok::<_, ExtractError>(entries_view(entries@)),
            decreases tags@.len() - i,
        {
            let ghost before = entries_view(entries@);
            assert(tv[i as int] == tags@[i as int]@);
            match field_of(&tags[i]) {
                None => {},
                Some(field) => {
                    let (key, content) = field;
                    let mv = multivalued(&key);
                    match find_entry(&entries, &key) {
                        None => {
                            if mv {
                                let mut vs: Vec<String> = Vec::new();
                                vs.push(content);
                                assert(texts(vs@) =~= seq![content@]);
                                entries.push((key, MetadataAttr::Many(vs)));
                            } else {
                                entries.push((key, MetadataAttr::One(content)));
                            }
                            assert(entries_view(entries@) =~= record_field(
                                before,
                                key@,
                                content@,
                            )->Ok_0);
                        },
                        Some(at) => {
                            if !mv {
                                let msg = text_message(
                                    "Got unexpected duplicate attribute '",
                                    key.as_str(),
                                    "'",
                                );
                                proof {
                                    lemma_extract_err_stays(tv, i as int + 1);
                                }
                                return Err(Error::DuplicateAttribute(msg));
                            }
                            let ghost old_entries = entries@;
                            proof {
                                lemma_find_field_bounds(before, key@);
                            }
                            let (k0, attr) = entries.remove(at);
                            match attr {
                                MetadataAttr::One(_) => {
                                    let msg = text_message(
                                        "Expected multivalued attribute type for '",
                                        key.as_str(),
                                        "'",
                                    );
                                    proof {
                                        lemma_extract_err_stays(tv, i as int + 1);
                                    }
                                    return Err(Error::AttributeTypeMismatch(msg));
                                },
                                MetadataAttr::Many(vs) => {
                                    let mut vs = vs;
                                    let ghost old_vs = texts(vs@);
                                    vs.push(content);
                                    assert(texts(vs@) =~= old_vs.push(content@));
                                    entries.insert(at, (k0, MetadataAttr::Many(vs)));
                                    assert(entries@ =~= old_entries.update(
                                        at as int,
                                        entries@[at as int],
                                    ));
                                    assert(entries_view(entries@) =~= before.update(
                                        at as int,
                                        (key@, AttrValue::Many(old_vs.push(content@))),
                                    ));
                                    assert(entries_view(entries@) =~= record_field(
                                        before,
                                        key@,
                                        content@,
                                    )->Ok_0);
                                },
                            }
                        },
                    }
                },
            }
            i = i + 1;
        }
        assert(tv.len() == i);
        let md = Metadata { entries };
        if md.entries.len() == 0 {
            return Err(
                Error::MetadataNotFound(
                    String::from_str("No <meta/> tags found in document <head/>"),
                ),
            );
        }
        proof {
            lemma_extract_wf(tv, tv.len() as int);
        }
        Ok(md)
    }

    /// Reads the metadata from the `<meta>` elements anywhere under a
    /// document's head, in document order (see `from_tags`).
    pub fn from_html(html: &[u8]) -> (r: Result<Metadata, Error>)
        requires
            html@.len() <= max_document_len(),
        ensures
            match r {
                Ok(md) => accepted(head_tags(html@)) == Some(md@) && md.wf(),
                Err(e) => refusal(head_tags(html@), e),
            },
    {
        match select_attrs(html, "head meta", "name", "content") {
            Ok(tags) => Metadata::from_tags(&tags),
            Err(()) => Err(
                Error::MetadataNotFound(
                    String::from_str("No <meta/> tags found in document <head/>"),
                ),
            ),
        }
    }
}

} // verus!
