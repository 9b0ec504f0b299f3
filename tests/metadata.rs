use rfz::{Error, MetaTag, Metadata, MetadataAttr};

fn tag(name: Option<&str>, content: Option<&str>) -> MetaTag {
    MetaTag { name: name.map(String::from), content: content.map(String::from) }
}

#[test]
fn single_valued_field_twice_is_a_duplicate() {
    let tags = vec![tag(Some("DC.Title"), Some("a")), tag(Some("DC.Title"), Some("b"))];
    match Metadata::from_tags(&tags) {
        Err(Error::DuplicateAttribute(msg)) => {
            assert_eq!(msg, "Got unexpected duplicate attribute 'Title'")
        }
        other => panic!("unexpected {:?}", other),
    }
}

#[test]
fn multivalued_field_twice_accumulates_in_order() {
    let tags = vec![
        tag(Some("DC.Creator"), Some("first")),
        tag(Some("DC.Title"), Some("t")),
        tag(Some("DC.Creator"), Some("second")),
    ];
    let meta = Metadata::from_tags(&tags).unwrap();
    assert_eq!(meta.fmt_summary(), "Creator:\nfirst;\nsecond\n\nTitle:\nt");
    assert_eq!(meta.fmt_line(), "<Creator: first; second // Title: t>");
    assert_eq!(meta.len(), 2);
    assert!(matches!(meta.get("Creator"), Some(MetadataAttr::Many(v)) if v.len() == 2));
    assert!(matches!(meta.get("Title"), Some(MetadataAttr::One(t)) if t == "t"));
    assert!(meta.get("Date").is_none());
}

#[test]
fn formatting_keeps_count_and_order_of_values() {
    let names = ["w", "x", "y", "z"];
    let tags: Vec<MetaTag> = names.iter().map(|n| tag(Some("DC.Relation.Replaces"), Some(n))).collect();
    let meta = Metadata::from_tags(&tags).unwrap();
    let summary = meta.fmt_summary();
    let values: Vec<&str> = summary.strip_prefix("Relation.Replaces:\n").unwrap().split(";\n").collect();
    assert_eq!(values, names.to_vec());
}

#[test]
fn elements_without_prefix_or_attributes_are_skipped() {
    let tags = vec![
        tag(Some("viewport"), Some("x")),
        tag(Some("DC.Title"), None),
        tag(None, Some("y")),
        tag(Some("dc.Title"), Some("lower")),
        tag(Some("DC.Title"), Some("kept")),
    ];
    let meta = Metadata::from_tags(&tags).unwrap();
    assert_eq!(meta.fmt_line(), "<Title: kept>");
}

#[test]
fn no_field_at_all_is_not_found() {
    let tags = vec![tag(Some("viewport"), Some("x"))];
    assert!(matches!(Metadata::from_tags(&tags), Err(Error::MetadataNotFound(_))));
    assert!(matches!(Metadata::from_tags(&vec![]), Err(Error::MetadataNotFound(_))));
}

#[test]
fn line_form_flattens_line_feeds_of_single_values_only() {
    let tags = vec![
        tag(Some("DC.Description.Abstract"), Some("one\ntwo")),
        tag(Some("DC.Creator"), Some("a\nb")),
    ];
    let meta = Metadata::from_tags(&tags).unwrap();
    assert_eq!(meta.fmt_line(), "<Description.Abstract: one two // Creator: a\nb>");
    assert_eq!(meta.fmt_summary(), "Description.Abstract:\none\ntwo\n\nCreator:\na\nb");
}

#[test]
fn html_head_is_read_in_document_order() {
    let html = "<html><head><meta name=\"DC.Creator\" content=\"B\"><meta name=\"DC.Creator\" content=\"A\"></head><body></body></html>";
    let meta = Metadata::from_html(html.as_bytes()).unwrap();
    assert_eq!(meta.fmt_line(), "<Creator: B; A>");
}
