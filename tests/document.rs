use rfz::{Document, Error};

const RFC_HTML: &str = "<html><head>\n\
<title>RFC 6468</title>\n\
<meta name=\"DC.Identifier\" content=\"urn:ietf:rfc:6468\" />\n\
<meta name=\"DC.Title\" content=\"Sieve Notification Mechanism: SIP MESSAGE\" />\n\
<meta name=\"DC.Creator\" content=\"Alexey Melnikov &lt;alexey.melnikov@isode.com&gt;\" />\n\
<meta name=\"DC.Date.Issued\" content=\"February, 2012\" />\n\
<meta name=\"DC.Relation.Replaces\" content=\"draft-melnikov-sieve-notify-sip-message\" />\n\
<meta name=\"DC.Description.Abstract\" content=\"This document describes a profile of the Sieve extension for\n\
notifications, to allow notifications to be sent over the SIP MESSAGE.\" />\n\
<meta name=\"viewport\" content=\"width=device-width\" />\n\
</head><body><p>text</p></body></html>\n";

const DRAFT_HTML: &str = "<html><head>\n\
<meta name=\"DC.Identifier\" content=\"urn:ietf:id:ietf-sidrops-rpkimaxlen\" />\n\
<meta name=\"DC.Title\" content=\"The Use of Maxlength in the RPKI\" />\n\
<meta name=\"DC.Creator\" content=\"Snijders, Job\" />\n\
<meta name=\"DC.Creator\" content=\"Gilad, Yossi\" />\n\
<meta name=\"DC.Creator\" content=\"Maddison, Ben\" />\n\
<meta name=\"DC.Creator\" content=\"Goldberg, Sharon\" />\n\
<meta name=\"DC.Creator\" content=\"Sriram, Kotikalapudi\" />\n\
<meta name=\"DC.Date.Issued\" content=\"2020-11-02\" />\n\
<meta name=\"DC.Relation.Replaces\" content=\"draft-yossigi-rpkimaxlen\" />\n\
<meta name=\"DC.Description.Abstract\" content=\"This document recommends ways to reduce forged-origin hijack attack\n\
surface by prudently limiting the set of IP prefixes that are included\n\
in a Route Origin Authorization (ROA). One recommendation is to avoid\n\
using the maxLength attribute in ROAs except in some specific cases.\n\
The recommendations complement and extend those in RFC 7115. The\n\
document also discusses creation of ROAs for facilitating the use of\n\
Distributed Denial of Service (DDoS) mitigation services.\n\
Considerations related to ROAs and origin validation in the context of\n\
destination-based Remote Triggered Black Hole (RTBH) filtering are\n\
also highlighted.\" />\n\
</head><body></body></html>\n";

const DUPLICATES_HTML: &str = "<html><head>\n\
<meta name=\"DC.Title\" content=\"First title\" />\n\
<meta name=\"DC.Title\" content=\"Second title\" />\n\
</head><body></body></html>\n";

fn resource_path(name: &str) -> String {
    format!("/srv/rfz/tests/resources/{}", name)
}

#[test]
fn test_well_formed_rfc() -> Result<(), Error> {
    let file = "rfc6468.html";
    let path = resource_path(file);
    let test_path = path.clone();
    let mut doc = Document::from_path(path).unwrap()?;
    assert_eq!("rfc6468", doc.id());
    assert_eq!(&0, doc.version());
    assert_eq!(&test_path, doc.path());
    doc.ensure_meta(RFC_HTML.as_bytes())?;
    let _meta = doc.meta()?;
    let strings = &[
        file,
        "RFC6468",
        "urn:ietf:rfc:6468",
        "Sieve Notification Mechanism: SIP MESSAGE",
        "Alexey Melnikov <alexey.melnikov@isode.com>",
        "February, 2012",
        "draft-melnikov-sieve-notify-sip-message",
        "This document describes a profile of the Sieve extension for",
        "notifications, to allow notifications to be sent over the SIP MESSAGE.",
    ];
    for out in &[doc.fmt_line()?, doc.fmt_summary()?] {
        for string in strings {
            assert!(out.contains(string), "'{}' not found in output", string);
        }
    }
    Ok(())
}

#[test]
fn test_well_formed_draft() -> Result<(), Error> {
    let file = "draft-ietf-sidrops-rpkimaxlen-05.html";
    let path = resource_path(file);
    let test_path = path.clone();
    let mut doc = Document::from_path(path).unwrap()?;
    assert_eq!("draft-ietf-sidrops-rpkimaxlen", doc.id());
    assert_eq!(&5, doc.version());
    assert_eq!(&test_path, doc.path());
    doc.ensure_meta(DRAFT_HTML.as_bytes())?;
    let _meta = doc.meta()?;
    let strings = &[
        file,
        "draft-ietf-sidrops-rpkimaxlen",
        "(version 5)",
        "urn:ietf:id:ietf-sidrops-rpkimaxlen",
        "The Use of Maxlength in the RPKI",
        "Snijders, Job;",
        "Gilad, Yossi;",
        "Maddison, Ben;",
        "Goldberg, Sharon;",
        "Sriram, Kotikalapudi",
        "2020-11-02",
        "draft-yossigi-rpkimaxlen",
        "This document recommends ways to reduce forged-origin hijack attack",
        "surface by prudently limiting the set of IP prefixes that are included",
        "in a Route Origin Authorization (ROA). One recommendation is to avoid",
        "using the maxLength attribute in ROAs except in some specific cases.",
        "The recommendations complement and extend those in RFC 7115. The",
        "document also discusses creation of ROAs for facilitating the use of",
        "Distributed Denial of Service (DDoS) mitigation services.",
        "Considerations related to ROAs and origin validation in the context of",
        "destination-based Remote Triggered Black Hole (RTBH) filtering are",
        "also highlighted.",
    ];
    for out in &[doc.fmt_line()?, doc.fmt_summary()?] {
        for string in strings {
            assert!(out.contains(string), "'{}' not found in output", string);
        }
    }
    Ok(())
}

#[test]
fn document_test_bad_path() {
    let file = "...";
    let path = resource_path(file);
    let maybe_doc = Document::from_path(path);
    assert!(matches!(maybe_doc, None))
}

#[test]
fn test_no_html_suffix() {
    let file = "not-found.xhtml";
    let path = resource_path(file);
    let maybe_doc = Document::from_path(path);
    assert!(matches!(maybe_doc, None))
}

#[test]
fn test_duplicate_attributes() {
    let file = "draft-duplicates-00.html";
    let path = resource_path(file);
    let mut maybe_doc = Document::from_path(path).unwrap().unwrap();
    assert!(matches!(
        maybe_doc.ensure_meta(DUPLICATES_HTML.as_bytes()),
        Err(Error::DuplicateAttribute(_))
    ))
}

#[test]
fn duplicate_message_names_the_field() {
    let mut doc = Document::from_path(resource_path("draft-duplicates-00.html")).unwrap().unwrap();
    match doc.ensure_meta(DUPLICATES_HTML.as_bytes()) {
        Err(Error::DuplicateAttribute(msg)) => {
            assert_eq!(msg, "Got unexpected duplicate attribute 'Title'")
        }
        other => panic!("unexpected {:?}", other),
    }
    assert!(matches!(doc.meta(), Err(Error::MetadataRetrieval(_))));
}

#[test]
fn path_without_file_name_is_no_document() {
    assert!(Document::from_path(String::from("/srv/rfz/..")).is_none());
    assert!(Document::from_path(String::from("/")).is_none());
    assert!(Document::from_path(String::from("")).is_none());
}

#[test]
fn file_name_is_taken_from_the_last_component() {
    let doc = Document::from_path(String::from("/srv/rfz-7.html/draft-a-b-07.html"))
        .unwrap()
        .unwrap();
    assert_eq!(doc.id(), "draft-a-b");
    assert_eq!(*doc.version(), 7);
}

#[test]
fn metadata_is_read_once() {
    let mut doc = Document::from_path(resource_path("rfc6468.html")).unwrap().unwrap();
    doc.ensure_meta(RFC_HTML.as_bytes()).unwrap();
    let first = doc.fmt_summary().unwrap();
    // a second read with other bytes extracts nothing and changes nothing
    doc.ensure_meta(DUPLICATES_HTML.as_bytes()).unwrap();
    let second = doc.fmt_summary().unwrap();
    assert_eq!(first, second);
}

#[test]
fn formatting_before_reading_fails() {
    let doc = Document::from_path(resource_path("rfc6468.html")).unwrap().unwrap();
    assert!(matches!(doc.fmt_line(), Err(Error::MetadataRetrieval(_))));
    assert!(matches!(doc.fmt_summary(), Err(Error::MetadataRetrieval(_))));
}

#[test]
fn head_without_fields_is_refused() {
    let mut doc = Document::from_path(resource_path("rfc1.html")).unwrap().unwrap();
    let html = "<html><head><meta name=\"viewport\" content=\"x\"></head><body><meta name=\"DC.Title\" content=\"t\"></body></html>";
    match doc.ensure_meta(html.as_bytes()) {
        Err(Error::MetadataNotFound(msg)) => {
            assert_eq!(msg, "No <meta/> tags found in document <head/>")
        }
        other => panic!("unexpected {:?}", other),
    }
}

#[test]
fn exact_line_of_an_rfc() {
    let mut doc = Document::from_path(String::from("d/rfc1.html")).unwrap().unwrap();
    let html = "<html><head><meta name=\"DC.Title\" content=\"A\nB\"><meta name=\"DC.Creator\" content=\"X\"><meta name=\"DC.Creator\" content=\"Y\"></head></html>";
    doc.ensure_meta(html.as_bytes()).unwrap();
    assert_eq!(
        doc.fmt_line().unwrap(),
        "d/rfc1.html \u{1b}[1;36mRFC1\u{1b}[0m \u{1b}[3;30m<Title: A B // Creator: X; Y>\u{1b}[0m"
    );
    assert_eq!(
        doc.fmt_summary().unwrap(),
        "d/rfc1.html \u{1b}[1;36mRFC1\u{1b}[0m\n\n\u{1b}[3;37mTitle:\nA\nB\n\nCreator:\nX;\nY\u{1b}[0m"
    );
}

#[test]
fn exact_line_of_a_draft() {
    let mut doc = Document::from_path(String::from("draft-x-12.html")).unwrap().unwrap();
    let html = "<head><meta name=\"DC.Title\" content=\"T\"></head>";
    doc.ensure_meta(html.as_bytes()).unwrap();
    assert_eq!(
        doc.fmt_line().unwrap(),
        "draft-x-12.html \u{1b}[34mdraft-x\u{1b}[0m (version 12) \u{1b}[3;30m<Title: T>\u{1b}[0m"
    );
}

#[test]
fn clone_keeps_metadata() {
    let mut doc = Document::from_path(resource_path("rfc6468.html")).unwrap().unwrap();
    doc.ensure_meta(RFC_HTML.as_bytes()).unwrap();
    let copy = doc.clone();
    assert_eq!(copy.fmt_line().unwrap(), doc.fmt_line().unwrap());
}

#[test]
fn unreadable_document_is_a_parse_error() {
    let err = std::io::Error::new(std::io::ErrorKind::NotFound, "missing");
    assert!(matches!(Error::from(err), Error::DocumentParseError(_)));
}

#[test]
fn retrieval_error_message_is_fixed() {
    let doc = Document::from_path(resource_path("rfc6468.html")).unwrap().unwrap();
    match doc.fmt_line() {
        Err(Error::MetadataRetrieval(msg)) => assert_eq!(msg, "metadata has not been read yet"),
        other => panic!("unexpected {:?}", other),
    }
}
