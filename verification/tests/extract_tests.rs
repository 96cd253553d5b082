use site_mapper::extract::extract_links;

#[test]
fn absolute_same_host_links_are_kept() {
    let page = r#"<html><body><a href="http://ex.com/a">a</a></body></html>"#;
    let links = extract_links(page, "http://ex.com/");
    assert_eq!(links, vec!["http://ex.com/a".to_string()]);
}

#[test]
fn relative_links_resolve_against_the_page_url() {
    let page = r#"<a href="a">a</a><a href="../up">up</a>"#;
    let links = extract_links(page, "http://ex.com/dir/page");
    assert_eq!(
        links,
        vec!["http://ex.com/dir/a".to_string(), "http://ex.com/up".to_string()]
    );
}

#[test]
fn fragment_and_query_are_stripped() {
    let page = r#"<a href="http://ex.com/a#frag">a</a><a href="http://ex.com/b?x=1">b</a>"#;
    let links = extract_links(page, "http://ex.com/");
    assert_eq!(
        links,
        vec!["http://ex.com/a".to_string(), "http://ex.com/b".to_string()]
    );
}

#[test]
fn foreign_hosts_are_dropped() {
    let page = r#"<a href="http://other.com/">x</a><a href="http://ex.com/a">a</a>"#;
    let links = extract_links(page, "http://ex.com/");
    assert_eq!(links, vec!["http://ex.com/a".to_string()]);
}

#[test]
fn duplicate_canonical_forms_collapse() {
    let page = r#"<a href="http://ex.com/a">1</a><a href="http://ex.com/a#f">2</a><a href="/a">3</a>"#;
    let links = extract_links(page, "http://ex.com/");
    assert_eq!(links, vec!["http://ex.com/a".to_string()]);
}

#[test]
fn anchors_without_href_contribute_nothing() {
    let page = r#"<a name="top">top</a><a href="http://ex.com/a">a</a>"#;
    let links = extract_links(page, "http://ex.com/");
    assert_eq!(links, vec!["http://ex.com/a".to_string()]);
}

#[test]
fn unresolvable_references_are_skipped() {
    let page = r#"<a href="http://[bad">broken</a><a href="http://ex.com/a">a</a>"#;
    let links = extract_links(page, "http://ex.com/");
    assert_eq!(links, vec!["http://ex.com/a".to_string()]);
}

#[test]
fn a_page_url_without_a_host_yields_no_links() {
    let page = r#"<a href="http://ex.com/a">a</a>"#;
    let links = extract_links(page, "mailto:someone@ex.com");
    assert!(links.is_empty());
}

#[test]
fn an_unparsable_page_url_yields_no_links() {
    let page = r#"<a href="http://ex.com/a">a</a>"#;
    let links = extract_links(page, "not a url");
    assert!(links.is_empty());
}
