//! Canonical URLs.
//!
//! A crawl identifies a page by the canonical form of its URL: the
//! serialization of the parsed absolute URL with the fragment and the query
//! removed. Two URL strings that differ only in fragment or query share one
//! canonical form, and equality of canonical forms is the identity used by
//! the visited set and the site map.

use vstd::prelude::*;

verus! {

/// The canonical form of the URL string `s`: the serialization of the parsed
/// absolute URL with fragment and query removed, or `None` when `s` does not
/// parse as an absolute URL.
pub uninterp spec fn canon_of(s: Seq<char>) -> Option<Seq<char>>;

/// The host of the URL string `s`, or `None` when `s` does not parse as an
/// absolute URL or parses to a URL without a host.
pub uninterp spec fn host_of(s: Seq<char>) -> Option<Seq<char>>;

/// The canonical form of the reference `href` resolved against the URL
/// string `base`, or `None` when `base` does not parse as an absolute URL or
/// `href` does not resolve against it.
pub uninterp spec fn resolve_of(base: Seq<char>, href: Seq<char>) -> Option<Seq<char>>;

/// The view of each string in a sequence of strings.
pub open spec fn seq_views(s: Seq<String>) -> Seq<Seq<char>> {
    s.map_values(|x: String| x@)
}

/// Relies on `url::Url::parse`, `Url::set_fragment(None)`,
/// `Url::set_query(None)` and `String::from(Url)`: parses an absolute URL
/// and serializes it with fragment and query removed. The result is its own
/// canonical form and keeps the host of `s`: the crate serializes per the
/// WHATWG URL Standard, under which parsing a URL's serialization yields
/// that URL back, and removing fragment and query touches neither the host
/// nor the rest of the serialization.
#[verifier::external_body]
pub(crate) fn normalize_url(s: &str) -> (r: Option<String>)
    ensures
        r is Some <==> canon_of(s@) is Some,
        r matches Some(u) ==> canon_of(s@) == Some(u@),
        r matches Some(u) ==> canon_of(u@) == Some(u@),
        r matches Some(u) ==> host_of(u@) == host_of(s@),
{
    match url::Url::parse(s) {
        Ok(mut u) => {
            u.set_fragment(None);
            u.set_query(None);
            Some(String::from(u))
        },
        Err(_) => None,
    }
}

/// Relies on `url::Url::parse` and `Url::host_str`: the host of the parsed
/// URL, absent when parsing fails or the URL has no host (`data:`, `mailto:`
/// and the like).
#[verifier::external_body]
pub(crate) fn url_host(s: &str) -> (r: Option<String>)
    ensures
        r is Some <==> host_of(s@) is Some,
        r matches Some(h) ==> host_of(s@) == Some(h@),
{
    match url::Url::parse(s) {
        Ok(u) => match u.host_str() {
            Some(h) => Some(h.to_string()),
            None => None,
        },
        Err(_) => None,
    }
}

/// Relies on `url::Url::parse`, `Url::options().base_url(..).parse` (which
/// resolves relative references against the base), `Url::set_fragment(None)`,
/// `Url::set_query(None)` and `String::from(Url)`. As with `normalize_url`,
/// the WHATWG round trip between a URL and its serialization makes the
/// result its own canonical form.
#[verifier::external_body]
pub(crate) fn resolve_link(base: &str, href: &str) -> (r: Option<String>)
    ensures
        r is Some <==> resolve_of(base@, href@) is Some,
        r matches Some(u) ==> resolve_of(base@, href@) == Some(u@),
        r matches Some(u) ==> canon_of(u@) == Some(u@),
{
    let b = match url::Url::parse(base) {
        Ok(b) => b,
        Err(_) => return None,
    };
    let mut u = match url::Url::options().base_url(Some(&b)).parse(href) {
        Ok(u) => u,
        Err(_) => return None,
    };
    u.set_fragment(None);
    u.set_query(None);
    Some(String::from(u))
}

/// Whether the string `s` occurs, by contents, in `v`.
pub(crate) fn contains_string(v: &Vec<String>, s: &String) -> (r: bool)
    ensures
        r == seq_views(v@).contains(s@),
{
    let mut j: usize = 0;
    while j < v.len()
        invariant
            j <= v@.len(),
            forall|k: int| 0 <= k < j ==> seq_views(v@)[k] != s@,
        decreases v@.len() - j,
    {
        if v[j] == *s {
            assert(seq_views(v@)[j as int] == s@);
            return true;
        }
        j = j + 1;
    }
    assert(forall|k: int| 0 <= k < v@.len() ==> seq_views(v@)[k] != s@);
    false
}

} // verus!
