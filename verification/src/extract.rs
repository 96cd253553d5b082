//! Link extraction.
//!
//! Given an HTML page and the page's own URL, collect the set of same-host
//! links the page refers to: each anchor's `href` is resolved against the
//! page URL, brought to canonical form, and kept only when its host equals
//! the page URL's host. The result is deduplicated; its order carries no
//! meaning.

use vstd::prelude::*;

use crate::canon::{canon_of, host_of, resolve_of, resolve_link, url_host, seq_views};
use crate::canon::contains_string;

verus! {

/// The `href` attribute values of the anchor elements of the HTML document
/// `body`, in document order; anchors without an `href` contribute nothing.
pub uninterp spec fn hrefs_of(body: Seq<char>) -> Seq<Seq<char>>;

/// Relies on `scraper::Html::parse_document`, `Selector::parse("a")`,
/// `Html::select` and `ElementRef::attr("href")`: the `href` attribute of
/// every anchor element, in document order. Parsing is lenient and never
/// fails: malformed markup yields a best-effort tree. `Selector::parse`
/// cannot fail on the fixed selector `"a"`.
#[verifier::external_body]
fn html_hrefs(page: &str) -> (r: Vec<String>)
    ensures
        seq_views(r@) == hrefs_of(page@),
{
    let document = scraper::Html::parse_document(page);
    let selector = scraper::Selector::parse("a").unwrap();
    let mut out: Vec<String> = Vec::new();
    for element in document.select(&selector) {
        if let Some(href) = element.attr("href") {
            out.push(href.to_string());
        }
    }
    out
}

/// The links contributed by the first `n` anchors of `body`: canonical
/// resolutions against `base` whose host equals the host of `base`.
pub open spec fn extracted_prefix(body: Seq<char>, base: Seq<char>, n: int) -> Set<Seq<char>> {
    Set::new(
        |u: Seq<char>|
            exists|k: int|
                0 <= k < n && k < hrefs_of(body).len() && #[trigger] resolve_of(
                    base,
                    hrefs_of(body)[k],
                ) == Some(u) && host_of(u) == host_of(base),
    )
}

/// The set of same-host links of the page `body` served at the URL `base`:
/// empty when `base` has no host, else every canonical resolution of an
/// anchor's `href` whose host equals the host of `base`.
pub open spec fn extracted_links(body: Seq<char>, base: Seq<char>) -> Set<Seq<char>> {
    if host_of(base) is Some {
        extracted_prefix(body, base, hrefs_of(body).len() as int)
    } else {
        Set::empty()
    }
}

/// A single page contributes finitely many links: at most one per anchor.
pub proof fn lemma_extracted_finite(body: Seq<char>, base: Seq<char>)
    ensures
        extracted_links(body, base).finite(),
{
    if host_of(base) is Some {
        let hs = hrefs_of(body);
        let rs = hs.map_values(
            |h: Seq<char>|
                match resolve_of(base, h) {
                    Some(u) => u,
                    None => h,
                },
        );
        assert forall|u: Seq<char>| extracted_links(body, base).contains(u) implies rs.to_set()
            .contains(u) by {
            let k = choose|k: int|
                0 <= k < hrefs_of(body).len() && #[trigger] resolve_of(base, hrefs_of(body)[k])
                    == Some(u) && host_of(u) == host_of(base);
            assert(rs[k] == u);
        };
        vstd::seq_lib::seq_to_set_is_finite(rs);
        vstd::set_lib::lemma_set_subset_finite(rs.to_set(), extracted_links(body, base));
    }
}

/// Extract the same-host links of the page `body` served at `page_url`.
///
/// Relative references are resolved against `page_url`; references that do
/// not resolve are skipped; fragment and query are stripped; links whose
/// host differs from the host of `page_url` are dropped; duplicates are
/// dropped. When `page_url` does not parse or has no host, no links are
/// returned.
pub fn extract_links(page: &str, page_url: &str) -> (links: Vec<String>)
    ensures
        seq_views(links@).no_duplicates(),
        seq_views(links@).to_set() == extracted_links(page@, page_url@),
        forall|k: int|
            0 <= k < links@.len() ==> canon_of(#[trigger] links@[k]@) == Some(links@[k]@),
        forall|k: int|
            0 <= k < links@.len() ==> host_of(#[trigger] links@[k]@) == host_of(page_url@)
                && host_of(links@[k]@) is Some,
{
    let mut links: Vec<String> = Vec::new();
    let base_host = match url_host(page_url) {
        Some(h) => h,
        None => {
            assert(seq_views(links@).to_set() =~= extracted_links(page@, page_url@));
            return links;
        },
    };
    let hrefs = html_hrefs(page);
    let ghost bodyv = page@;
    let ghost base = page_url@;
    let mut i: usize = 0;
    assert(seq_views(links@).to_set() =~= extracted_prefix(bodyv, base, 0));
    while i < hrefs.len()
        invariant
            i <= hrefs@.len(),
            base == page_url@,
            bodyv == page@,
            seq_views(hrefs@) == hrefs_of(bodyv),
            host_of(base) == Some(base_host@),
            seq_views(links@).no_duplicates(),
            seq_views(links@).to_set() == extracted_prefix(bodyv, base, i as int),
            forall|k: int|
                0 <= k < links@.len() ==> canon_of(#[trigger] links@[k]@) == Some(links@[k]@),
            forall|k: int|
                0 <= k < links@.len() ==> host_of(#[trigger] links@[k]@) == host_of(base),
        decreases hrefs@.len() - i,
    {
        let ghost prev = seq_views(links@).to_set();
        let href = hrefs[i].as_str();
        assert(href@ == hrefs_of(bodyv)[i as int]);
        match resolve_link(page_url, href) {
            None => {
                proof {
                    assert(resolve_of(base, hrefs_of(bodyv)[i as int]) is None);
                    assert(extracted_prefix(bodyv, base, i + 1) =~= prev);
                }
            },
            Some(u) => {
                match url_host(u.as_str()) {
                    None => {
                        proof {
                            assert(extracted_prefix(bodyv, base, i + 1) =~= prev);
                        }
                    },
                    Some(h) => {
                        if h == base_host {
                            assert(host_of(u@) == host_of(base));
                            assert(extracted_prefix(bodyv, base, i + 1) =~= prev.insert(u@));
                            if !contains_string(&links, &u) {
                                let ghost prev_seq = seq_views(links@);
                                links.push(u);
                                proof {
                                    assert(seq_views(links@) =~= prev_seq.push(u@));
                                    assert(seq_views(links@).no_duplicates());
                                    assert forall|x: Seq<char>| prev.insert(u@).contains(x)
                                        implies seq_views(links@).to_set().contains(x) by {
                                        if x == u@ {
                                            assert(seq_views(links@)[prev_seq.len() as int] == x);
                                        } else {
                                            let j = choose|j: int|
                                                0 <= j < prev_seq.len() && prev_seq[j] == x;
                                            assert(seq_views(links@)[j] == x);
                                        }
                                    };
                                    assert forall|x: Seq<char>| seq_views(links@).to_set().contains(
                                        x,
                                    ) implies prev.insert(u@).contains(x) by {
                                        let j = choose|j: int|
                                            0 <= j < seq_views(links@).len() && seq_views(
                                                links@,
                                            )[j] == x;
                                        if j < prev_seq.len() {
                                            assert(prev_seq[j] == x);
                                        } else {
                                            assert(x == u@);
                                        }
                                    };
                                    assert(seq_views(links@).to_set() =~= prev.insert(u@));
                                }
                            } else {
                                assert(prev.contains(u@));
                                assert(seq_views(links@).to_set() =~= prev.insert(u@));
                            }
                        } else {
                            assert(host_of(u@) != host_of(base));
                            proof {
                                assert(extracted_prefix(bodyv, base, i + 1) =~= prev);
                            }
                        }
                    },
                }
            },
        }
        i = i + 1;
    }
    links
}

} // verus!
