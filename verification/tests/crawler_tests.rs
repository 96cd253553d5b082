use site_mapper::crawler::{crawl_pages, Crawler};

fn site(entries: Vec<(&str, &str)>) -> Vec<(String, String)> {
    let mut pages: Vec<(String, String)> = Vec::new();
    for (u, b) in entries {
        pages.push((u.to_string(), b.to_string()));
    }
    pages
}

fn sorted(mut v: Vec<String>) -> Vec<String> {
    v.sort();
    v
}

#[test]
fn fragment_and_query_variants_collapse_and_foreign_hosts_are_excluded() {
    let pages = site(vec![(
        "http://ex.com/",
        r#"<a href="http://ex.com/a">1</a>
           <a href="http://ex.com/a#frag">2</a>
           <a href="http://ex.com/b?x=1">3</a>
           <a href="http://other.com/">4</a>"#,
    )]);
    let (map, fetches) = crawl_pages("http://ex.com/", &pages).unwrap();
    assert_eq!(
        sorted(map),
        vec![
            "http://ex.com/".to_string(),
            "http://ex.com/a".to_string(),
            "http://ex.com/b".to_string()
        ]
    );
    assert_eq!(fetches, 3);
}

#[test]
fn a_failing_start_fetch_still_leaves_the_start_url_in_the_site_map() {
    let pages = site(vec![]);
    let (map, fetches) = crawl_pages("http://ex.com/", &pages).unwrap();
    assert_eq!(map, vec!["http://ex.com/".to_string()]);
    assert_eq!(fetches, 1);
}

#[test]
fn a_page_linking_to_itself_is_crawled_once() {
    let pages = site(vec![("http://ex.com/", r#"<a href="/">home</a>"#)]);
    let (map, fetches) = crawl_pages("http://ex.com/", &pages).unwrap();
    assert_eq!(map, vec!["http://ex.com/".to_string()]);
    assert_eq!(fetches, 1);
}

#[test]
fn a_cycle_of_pages_is_crawled_once_each() {
    let pages = site(vec![
        ("http://ex.com/", r#"<a href="/a">a</a>"#),
        ("http://ex.com/a", r#"<a href="/b">b</a>"#),
        ("http://ex.com/b", r#"<a href="/">home</a><a href="/a">a</a>"#),
    ]);
    let (map, fetches) = crawl_pages("http://ex.com/", &pages).unwrap();
    assert_eq!(
        sorted(map),
        vec![
            "http://ex.com/".to_string(),
            "http://ex.com/a".to_string(),
            "http://ex.com/b".to_string()
        ]
    );
    assert_eq!(fetches, 3);
}

#[test]
fn unreachable_pages_stay_out_of_the_site_map() {
    let pages = site(vec![
        ("http://ex.com/", r#"<a href="/a">a</a>"#),
        ("http://ex.com/a", ""),
        ("http://ex.com/island", r#"<a href="/">home</a>"#),
    ]);
    let (map, fetches) = crawl_pages("http://ex.com/", &pages).unwrap();
    assert_eq!(
        sorted(map),
        vec!["http://ex.com/".to_string(), "http://ex.com/a".to_string()]
    );
    assert_eq!(fetches, 2);
}

#[test]
fn dead_links_enter_the_site_map_and_are_attempted_once() {
    let pages = site(vec![(
        "http://ex.com/",
        r#"<a href="/missing">missing</a><a href="/missing#f">again</a>"#,
    )]);
    let (map, fetches) = crawl_pages("http://ex.com/", &pages).unwrap();
    assert_eq!(
        sorted(map),
        vec![
            "http://ex.com/".to_string(),
            "http://ex.com/missing".to_string()
        ]
    );
    assert_eq!(fetches, 2);
}

#[test]
fn the_start_url_is_normalized_before_seeding() {
    let pages = site(vec![]);
    let (map, _) = crawl_pages("http://ex.com/page?x=1#frag", &pages).unwrap();
    assert_eq!(map, vec!["http://ex.com/page".to_string()]);
}

#[test]
fn an_unparsable_start_url_is_the_only_error() {
    let pages = site(vec![]);
    assert!(crawl_pages("not a url", &pages).is_none());
    assert!(crawl_pages("/relative/only", &pages).is_none());
}

#[test]
fn the_crawl_of_a_static_site_is_idempotent() {
    let pages = site(vec![
        ("http://ex.com/", r#"<a href="/a">a</a><a href="/b">b</a>"#),
        ("http://ex.com/a", r#"<a href="/b#f">b</a>"#),
        ("http://ex.com/b", r#"<a href="/">home</a>"#),
    ]);
    let (first, _) = crawl_pages("http://ex.com/", &pages).unwrap();
    let (second, _) = crawl_pages("http://ex.com/", &pages).unwrap();
    assert_eq!(sorted(first), sorted(second));
}

#[test]
fn seeding_records_the_canonical_start_url() {
    let seeded = Crawler::seed("http://ex.com/a?q=2#top").unwrap();
    let (crawler, work) = seeded;
    assert_eq!(work, "http://ex.com/a".to_string());
    assert_eq!(crawler.site_map(), &vec!["http://ex.com/a".to_string()]);
    assert_eq!(crawler.pending(), 1);
    assert!(!crawler.is_done());
}

#[test]
fn seeding_fails_on_an_unparsable_start_url() {
    assert!(Crawler::seed("no scheme at all").is_none());
    assert!(Crawler::seed("/relative/only").is_none());
}

#[test]
fn a_result_without_links_resolves_one_work_item() {
    let (mut crawler, _work) = Crawler::seed("http://ex.com/").unwrap();
    let new_work = crawler.on_result(None);
    assert!(new_work.is_empty());
    assert!(crawler.is_done());
    assert_eq!(crawler.site_map(), &vec!["http://ex.com/".to_string()]);
}

#[test]
fn discovered_links_become_new_work_items_once() {
    let (mut crawler, _work) = Crawler::seed("http://ex.com/").unwrap();
    let links = vec![
        "http://ex.com/a".to_string(),
        "http://ex.com/".to_string(),
        "http://ex.com/a".to_string(),
    ];
    let new_work = crawler.on_result(Some(links));
    assert_eq!(new_work, vec!["http://ex.com/a".to_string()]);
    assert_eq!(crawler.pending(), 1);
    assert_eq!(
        crawler.site_map(),
        &vec!["http://ex.com/".to_string(), "http://ex.com/a".to_string()]
    );
    let done = crawler.on_result(None);
    assert!(done.is_empty());
    assert!(crawler.is_done());
}
