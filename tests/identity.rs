use rfz::parse_file_name;

fn parsed(name: &str) -> Option<(String, i8)> {
    parse_file_name(name)
}

#[test]
fn versioned_names_give_id_and_version() {
    assert_eq!(parsed("draft-ietf-sidrops-rpkimaxlen-05.html"), Some((String::from("draft-ietf-sidrops-rpkimaxlen"), 5)));
    assert_eq!(parsed("a-0.html"), Some((String::from("a"), 0)));
    assert_eq!(parsed("a-01-127.html"), Some((String::from("a-01"), 127)));
}

#[test]
fn unversioned_names_give_version_zero() {
    assert_eq!(parsed("rfc6468.html"), Some((String::from("rfc6468"), 0)));
    assert_eq!(parsed("draft-ietf-foo.html"), Some((String::from("draft-ietf-foo"), 0)));
    assert_eq!(parsed("draft-foo-1a.html"), Some((String::from("draft-foo-1a"), 0)));
}

#[test]
fn oversized_or_signed_versions_stay_in_the_id() {
    assert_eq!(parsed("draft-foo-128.html"), Some((String::from("draft-foo-128"), 0)));
    assert_eq!(parsed("draft-foo-+5.html"), Some((String::from("draft-foo-+5"), 0)));
    assert_eq!(parsed("-05.html"), Some((String::from("-05"), 0)));
    assert_eq!(parsed("draft-.html"), Some((String::from("draft-"), 0)));
}

#[test]
fn names_without_the_suffix_are_no_candidates() {
    assert_eq!(parsed("not-found.xhtml"), None);
    assert_eq!(parsed("..."), None);
    assert_eq!(parsed(".html"), None);
    assert_eq!(parsed("rfc6468.HTML"), None);
    assert_eq!(parsed("rfc6468.html.bak"), None);
    assert_eq!(parsed(""), None);
}
