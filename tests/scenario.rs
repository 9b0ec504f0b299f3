use rfz::{index_selection, Collection, Document};

const DRAFT: &str = "<html><head><meta name=\"DC.Title\" content=\"Maxlength\"><meta name=\"DC.Creator\" content=\"Snijders, Job\"><meta name=\"DC.Creator\" content=\"Gilad, Yossi\"></head></html>";
const RFC: &str = "<html><head><meta name=\"DC.Title\" content=\"Sieve\"></head></html>";
const DUPLICATES: &str = "<html><head><meta name=\"DC.Title\" content=\"a\"><meta name=\"DC.Title\" content=\"b\"></head></html>";

fn html_for(doc: &Document) -> &'static str {
    if doc.id() == "rfc6468" {
        RFC
    } else if doc.id() == "draft-duplicates" {
        DUPLICATES
    } else {
        DRAFT
    }
}

fn resolve(docs: Vec<Document>) -> (Vec<String>, Vec<String>) {
    let mut lines = Vec::new();
    let mut failures = Vec::new();
    for mut doc in docs {
        let html = html_for(&doc);
        match doc.ensure_meta(html.as_bytes()).and_then(|_| doc.fmt_line()) {
            Ok(line) => lines.push(line),
            Err(_) => failures.push(doc.id().clone()),
        }
    }
    (lines, failures)
}

#[test]
fn directory_to_index_lines() {
    let entries: Vec<(String, bool)> = [
        "rfc6468.html",
        "draft-ietf-sidrops-rpkimaxlen-05.html",
        "draft-ietf-sidrops-rpkimaxlen-04.html",
        "draft-duplicates-00.html",
    ]
    .iter()
    .map(|n| (format!("mirror/{}", n), true))
    .collect();
    let collection = Collection::from_listing(&entries).unwrap();
    assert_eq!(collection.len(), 4);
    let (all_lines, all_failures) = resolve(collection.documents().clone());
    assert_eq!(all_lines.len(), 3);
    assert_eq!(all_failures, vec![String::from("draft-duplicates")]);
    let newest = index_selection(&collection, None);
    assert_eq!(newest.len(), 3);
    let mut lines = Vec::new();
    let mut failures = Vec::new();
    for mut doc in newest.into_documents() {
        let html = html_for(&doc);
        match doc.ensure_meta(html.as_bytes()).and_then(|_| doc.fmt_line()) {
            Ok(line) => lines.push(line),
            Err(e) => failures.push((doc.id().clone(), e)),
        }
    }
    assert_eq!(lines.len(), 3 - failures.len());
    assert_eq!(lines.len(), 2);
    assert_eq!(failures.len(), 1);
    assert_eq!(failures[0].0, "draft-duplicates");
    assert!(lines.iter().any(|l| l.contains("(version 5)")));
    assert!(lines.iter().any(|l| l.contains("RFC6468")));
}
