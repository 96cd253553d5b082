//! The crawl orchestrator.
//!
//! The orchestrator owns the visited set, the site map and the pending
//! count. Seeding canonicalizes the start URL, records it and dispatches it
//! as the first work item; each crawl result then resolves one outstanding
//! work item and may discover new URLs, which are recorded and dispatched in
//! turn. The crawl is complete exactly when the pending count reaches zero.
//!
//! Workers never touch this state: they only turn a work item into a crawl
//! result (fetch, then extract links). `crawl_pages` runs the whole loop
//! against an in-memory site and is proved to return exactly the URLs
//! reachable from the start URL.

use vstd::prelude::*;

use crate::canon::{canon_of, host_of, normalize_url, seq_views, contains_string};
use crate::extract::{extract_links, extracted_links, lemma_extracted_finite};
use vstd::set_lib::lemma_len_subset;

verus! {

/// The set of a pushed sequence is the set of the sequence plus the new
/// element.
proof fn lemma_to_set_push<A>(s: Seq<A>, x: A)
    ensures
        s.push(x).to_set() == s.to_set().insert(x),
{
    assert forall|y: A| s.push(x).to_set().contains(y) implies s.to_set().insert(x).contains(
        y,
    ) by {
        let j = choose|j: int| 0 <= j < s.push(x).len() && s.push(x)[j] == y;
        if j < s.len() {
            assert(s[j] == y);
        }
    };
    assert forall|y: A| s.to_set().insert(x).contains(y) implies s.push(x).to_set().contains(
        y,
    ) by {
        if y == x {
            assert(s.push(x)[s.len() as int] == y);
        } else {
            let j = choose|j: int| 0 <= j < s.len() && s[j] == y;
            assert(s.push(x)[j] == y);
        }
    };
    assert(s.push(x).to_set() =~= s.to_set().insert(x));
}

/// The crawl orchestrator's state.
///
/// `visited` holds every canonical URL dispatched for crawling, whether or
/// not its fetch succeeds; `site_map` is the output set, in discovery order;
/// `pending` counts work items dispatched and not yet resolved. Under the
/// policy that a URL enters the site map when it is discovered, not when its
/// fetch succeeds, the two sequences hold the same URLs.
pub struct Crawler {
    start: String,
    visited: Vec<String>,
    site_map: Vec<String>,
    pending: usize,
}

impl Crawler {
    /// The canonical start URL.
    pub closed spec fn start_url(self) -> Seq<char> {
        self.start@
    }

    /// The canonical URLs dispatched so far, in dispatch order.
    pub closed spec fn visited_urls(self) -> Seq<Seq<char>> {
        seq_views(self.visited@)
    }

    /// The canonical URLs of the site map, in discovery order.
    pub closed spec fn urls(self) -> Seq<Seq<char>> {
        seq_views(self.site_map@)
    }

    /// The number of work items dispatched and not yet resolved.
    pub closed spec fn pending_count(self) -> int {
        self.pending as int
    }

    /// Well-formedness, established by `seed` and preserved by `on_result`:
    /// the site map and the visited set hold the same URLs; no URL occurs
    /// twice; every URL is canonical; every URL's host is the start URL's
    /// host; the start URL is the first entry; the pending count never
    /// exceeds the number of dispatched URLs.
    pub closed spec fn wf(self) -> bool {
        &&& self.urls() == self.visited_urls()
        &&& self.visited_urls().no_duplicates()
        &&& self.visited_urls().len() > 0
        &&& self.visited_urls()[0] == self.start@
        &&& canon_of(self.start@) == Some(self.start@)
        &&& forall|k: int|
            0 <= k < self.visited_urls().len() ==> canon_of(#[trigger] self.visited_urls()[k])
                == Some(self.visited_urls()[k])
        &&& forall|k: int|
            0 <= k < self.visited_urls().len() ==> host_of(#[trigger] self.visited_urls()[k])
                == host_of(self.start@)
        &&& self.pending <= self.visited@.len()
    }

    /// Seeding: canonicalize the start URL, record it in the visited set and
    /// the site map, and hand it back as the sole initial work item, with a
    /// pending count of one. Fails exactly when the start URL does not parse
    /// as an absolute URL — the one caller-visible error of a crawl.
    pub fn seed(start_url: &str) -> (r: Option<(Crawler, String)>)
        ensures
            r is Some <==> canon_of(start_url@) is Some,
            r matches Some((c, w)) ==> {
                &&& c.wf()
                &&& canon_of(start_url@) == Some(w@)
                &&& c.start_url() == w@
                &&& host_of(w@) == host_of(start_url@)
                &&& c.urls() == seq![w@]
                &&& c.pending_count() == 1
            },
    {
        match normalize_url(start_url) {
            None => None,
            Some(c) => {
                let w = c.clone();
                let mut visited: Vec<String> = Vec::new();
                let mut site_map: Vec<String> = Vec::new();
                visited.push(c.clone());
                site_map.push(c.clone());
                let crawler = Crawler { start: c, visited, site_map, pending: 1 };
                proof {
                    assert(crawler.urls() =~= seq![crawler.start@]);
                    assert(crawler.visited_urls() =~= seq![crawler.start@]);
                }
                Some((crawler, w))
            },
        }
    }

    /// Absorb one crawl result: one outstanding work item is resolved, so
    /// the pending count drops by one. A result of `None` (fetch failure or
    /// a non-HTML page) discovers nothing. A result carrying links records
    /// each link that is not yet in the visited set — in the visited set and
    /// the site map — and returns those links, in order, as the new work
    /// items; the pending count rises by one per new work item.
    ///
    /// Each link of a crawl result is a canonical URL on the start URL's
    /// host, as `extract_links` guarantees for pages fetched from dispatched
    /// work items.
    pub fn on_result(&mut self, links: Option<Vec<String>>) -> (new_work: Vec<String>)
        requires
            old(self).wf(),
            old(self).pending_count() >= 1,
            links matches Some(ls) ==> forall|k: int|
                0 <= k < ls@.len() ==> canon_of(#[trigger] ls@[k]@) == Some(ls@[k]@) && host_of(
                    ls@[k]@,
                ) == host_of(old(self).start_url()),
        ensures
            final(self).wf(),
            final(self).start_url() == old(self).start_url(),
            final(self).pending_count() == old(self).pending_count() - 1 + new_work@.len(),
            final(self).visited_urls() == old(self).visited_urls() + seq_views(new_work@),
            final(self).urls() == old(self).urls() + seq_views(new_work@),
            links is None ==> new_work@.len() == 0,
            links matches Some(ls) ==> final(self).visited_urls().to_set() == old(
                self,
            ).visited_urls().to_set() + seq_views(ls@).to_set(),
            forall|k: int|
                0 <= k < new_work@.len() ==> !old(self).visited_urls().to_set().contains(
                    #[trigger] seq_views(new_work@)[k],
                ),
            links matches Some(ls) ==> forall|k: int|
                0 <= k < new_work@.len() ==> seq_views(ls@).to_set().contains(
                    #[trigger] seq_views(new_work@)[k],
                ),
    {
        self.pending = self.pending - 1;
        let mut new_work: Vec<String> = Vec::new();
        let ls = match links {
            None => {
                assert(final(self).visited_urls() =~= old(self).visited_urls() + seq_views(
                    new_work@,
                ));
                assert(final(self).urls() =~= old(self).urls() + seq_views(new_work@));
                return new_work;
            },
            Some(ls) => ls,
        };
        let ghost old_vis = seq_views(old(self).visited@);
        let mut i: usize = 0;
        while i < ls.len()
            invariant
                i <= ls@.len(),
                self.start == old(self).start,
                self.pending as int == old(self).pending - 1 + new_work@.len(),
                self.pending <= self.visited@.len(),
                old(self).wf(),
                old_vis == old(self).visited_urls(),
                forall|k: int|
                    0 <= k < ls@.len() ==> canon_of(#[trigger] ls@[k]@) == Some(ls@[k]@) && host_of(
                        ls@[k]@,
                    ) == host_of(old(self).start@),
                seq_views(self.visited@) == old_vis + seq_views(new_work@),
                seq_views(self.site_map@) == seq_views(self.visited@),
                seq_views(self.visited@).no_duplicates(),
                seq_views(self.visited@).to_set() == old_vis.to_set() + seq_views(
                    ls@.take(i as int),
                ).to_set(),
                forall|k: int|
                    0 <= k < new_work@.len() ==> !old_vis.to_set().contains(
                        #[trigger] seq_views(new_work@)[k],
                    ),
                forall|k: int|
                    0 <= k < new_work@.len() ==> seq_views(ls@).to_set().contains(
                        #[trigger] seq_views(new_work@)[k],
                    ),
            decreases ls@.len() - i,
        {
            let ghost prev_vis = seq_views(self.visited@);
            let ghost prev_nw = seq_views(new_work@);
            let ghost prev_take = seq_views(ls@.take(i as int));
            proof {
                assert(seq_views(ls@.take(i + 1)) =~= prev_take.push(ls@[i as int]@));
                lemma_to_set_push(prev_take, ls@[i as int]@);
            }
            let u = &ls[i];
            if !contains_string(&self.visited, u) {
                self.visited.push(u.clone());
                self.site_map.push(u.clone());
                new_work.push(u.clone());
                let n = self.visited.len();
                self.pending = self.pending + 1;
                proof {
                    assert(seq_views(self.visited@) =~= prev_vis.push(ls@[i as int]@));
                    assert(seq_views(self.site_map@) =~= seq_views(self.visited@));
                    assert(seq_views(new_work@) =~= prev_nw.push(ls@[i as int]@));
                    lemma_to_set_push(prev_vis, ls@[i as int]@);
                    assert(seq_views(self.visited@) =~= (old_vis + prev_nw).push(ls@[i as int]@));
                    assert((old_vis + prev_nw).push(ls@[i as int]@) =~= old_vis + prev_nw.push(
                        ls@[i as int]@,
                    ));
                    assert(seq_views(self.visited@).to_set() =~= old_vis.to_set() + seq_views(
                        ls@.take(i + 1),
                    ).to_set());
                    assert(seq_views(ls@)[i as int] == ls@[i as int]@);
                    assert(seq_views(ls@).to_set().contains(ls@[i as int]@));
                    assert(!prev_vis.contains(ls@[i as int]@));
                    assert forall|x: Seq<char>| old_vis.to_set().contains(x) implies prev_vis.contains(
                        x,
                    ) by {
                        let j = choose|j: int| 0 <= j < old_vis.len() && old_vis[j] == x;
                        assert(prev_vis[j] == x);
                    };
                    assert(!old_vis.to_set().contains(ls@[i as int]@));
                }
            } else {
                proof {
                    assert(prev_vis.to_set().contains(ls@[i as int]@));
                    assert(seq_views(self.visited@).to_set() =~= old_vis.to_set() + seq_views(
                        ls@.take(i + 1),
                    ).to_set());
                }
            }
            i = i + 1;
        }
        proof {
            assert(ls@.take(ls@.len() as int) =~= ls@);
        }
        new_work
    }

    /// Whether the crawl is complete: no work item is outstanding.
    pub fn is_done(&self) -> (r: bool)
        ensures
            r == (self.pending_count() == 0),
    {
        self.pending == 0
    }

    /// The number of work items dispatched and not yet resolved.
    pub fn pending(&self) -> (r: usize)
        ensures
            r as int == self.pending_count(),
    {
        self.pending
    }

    /// The site map discovered so far, in discovery order.
    pub fn site_map(&self) -> (r: &Vec<String>)
        ensures
            seq_views(r@) == self.urls(),
    {
        &self.site_map
    }

    /// Surrender the crawler, keeping its site map.
    pub fn into_site_map(self) -> (r: Vec<String>)
        ensures
            seq_views(r@) == self.urls(),
    {
        self.site_map
    }
}

/// The same-domain restriction: a well-formed crawler's site map never
/// holds a URL whose host differs from the start URL's host.
pub proof fn lemma_site_map_same_host(c: Crawler)
    requires
        c.wf(),
    ensures
        forall|k: int|
            0 <= k < c.urls().len() ==> host_of(#[trigger] c.urls()[k]) == host_of(c.start_url()),
{
}

/// One entry per canonical URL: a well-formed crawler's site map never
/// holds two distinct entries that share a canonical form, since every
/// entry is its own canonical form and no entry repeats.
pub proof fn lemma_site_map_no_canonical_duplicates(c: Crawler)
    requires
        c.wf(),
    ensures
        forall|i: int, j: int|
            0 <= i < c.urls().len() && 0 <= j < c.urls().len() && i != j ==> canon_of(
                #[trigger] c.urls()[i],
            ) != canon_of(#[trigger] c.urls()[j]),
{
    assert forall|i: int, j: int|
        0 <= i < c.urls().len() && 0 <= j < c.urls().len() && i != j implies canon_of(
        #[trigger] c.urls()[i],
    ) != canon_of(#[trigger] c.urls()[j]) by {
        assert(c.urls()[i] != c.urls()[j]);
        assert(canon_of(c.urls()[i]) == Some(c.urls()[i]));
        assert(canon_of(c.urls()[j]) == Some(c.urls()[j]));
    };
}

/// The view of a list of pages: each page's URL and body, as character
/// sequences.
pub open spec fn pages_views(ps: Seq<(String, String)>) -> Seq<(Seq<char>, Seq<char>)> {
    ps.map_values(|p: (String, String)| (p.0@, p.1@))
}

/// The body served for the URL `u`: the body of the first page listed under
/// `u`, if any.
pub open spec fn page_body(ps: Seq<(Seq<char>, Seq<char>)>, u: Seq<char>) -> Option<Seq<char>>
    decreases ps.len(),
{
    if ps.len() == 0 {
        None
    } else if ps[0].0 == u {
        Some(ps[0].1)
    } else {
        page_body(ps.skip(1), u)
    }
}

/// The same-host links of the page served for `u`; empty when no page is
/// served for `u` — a failed fetch discovers nothing.
pub open spec fn links_of(ps: Seq<(Seq<char>, Seq<char>)>, u: Seq<char>) -> Set<Seq<char>> {
    match page_body(ps, u) {
        Some(b) => extracted_links(b, u),
        None => Set::empty(),
    }
}

/// A chain of link steps through the site `ps` that begins at `start`.
pub open spec fn is_link_path(
    ps: Seq<(Seq<char>, Seq<char>)>,
    start: Seq<char>,
    path: Seq<Seq<char>>,
) -> bool {
    &&& path.len() > 0
    &&& path[0] == start
    &&& forall|k: int|
        0 <= k < path.len() - 1 ==> links_of(ps, #[trigger] path[k]).contains(path[k + 1])
}

/// Whether `u` can be reached from `start` by following same-host links.
pub open spec fn reachable(ps: Seq<(Seq<char>, Seq<char>)>, start: Seq<char>, u: Seq<char>) -> bool {
    exists|path: Seq<Seq<char>>| is_link_path(ps, start, path) && path.last() == u
}

/// The site map a crawl of `ps` from the canonical URL `start` must
/// produce: exactly the URLs reachable from `start`.
pub open spec fn site_map_of(ps: Seq<(Seq<char>, Seq<char>)>, start: Seq<char>) -> Set<Seq<char>> {
    Set::new(|u: Seq<char>| reachable(ps, start, u))
}

/// Every URL a crawl of `ps` can discover beyond its start URL: the
/// same-host links of each page, taken under that page's own URL.
pub open spec fn discovered_pool(ps: Seq<(Seq<char>, Seq<char>)>) -> Set<Seq<char>>
    decreases ps.len(),
{
    if ps.len() == 0 {
        Set::empty()
    } else {
        extracted_links(ps[0].1, ps[0].0) + discovered_pool(ps.skip(1))
    }
}

/// The pool of discoverable URLs is finite.
pub proof fn lemma_pool_finite(ps: Seq<(Seq<char>, Seq<char>)>)
    ensures
        discovered_pool(ps).finite(),
    decreases ps.len(),
{
    if ps.len() > 0 {
        lemma_extracted_finite(ps[0].1, ps[0].0);
        lemma_pool_finite(ps.skip(1));
        vstd::set_lib::lemma_set_union_finite_iff(
            extracted_links(ps[0].1, ps[0].0),
            discovered_pool(ps.skip(1)),
        );
    }
}

/// Whatever page is served for `u`, its links lie in the pool.
pub proof fn lemma_links_in_pool(ps: Seq<(Seq<char>, Seq<char>)>, u: Seq<char>)
    ensures
        links_of(ps, u).subset_of(discovered_pool(ps)),
    decreases ps.len(),
{
    if ps.len() == 0 {
    } else if ps[0].0 == u {
        assert(links_of(ps, u) == extracted_links(ps[0].1, ps[0].0));
    } else {
        lemma_links_in_pool(ps.skip(1), u);
    }
}

/// The start URL reaches itself.
pub proof fn lemma_reachable_start(ps: Seq<(Seq<char>, Seq<char>)>, start: Seq<char>)
    ensures
        reachable(ps, start, start),
{
    let path = seq![start];
    assert(is_link_path(ps, start, path));
    assert(path.last() == start);
}

/// Reachability extends along one link.
pub proof fn lemma_reachable_step(
    ps: Seq<(Seq<char>, Seq<char>)>,
    start: Seq<char>,
    u: Seq<char>,
    v: Seq<char>,
)
    requires
        reachable(ps, start, u),
        links_of(ps, u).contains(v),
    ensures
        reachable(ps, start, v),
{
    let path = choose|path: Seq<Seq<char>>| is_link_path(ps, start, path) && path.last() == u;
    let path2 = path.push(v);
    assert forall|k: int| 0 <= k < path2.len() - 1 implies links_of(ps, path2[k]).contains(
        path2[k + 1],
    ) by {
        if k < path.len() - 1 {
            assert(path2[k] == path[k]);
            assert(path2[k + 1] == path[k + 1]);
        } else {
            assert(path2[k] == path.last());
            assert(path2[k + 1] == v);
        }
    };
    assert(is_link_path(ps, start, path2));
    assert(path2.last() == v);
}

/// Every URL along a link path lies in any set that contains the start URL
/// and is closed under the link relation.
proof fn lemma_path_in_closed(
    ps: Seq<(Seq<char>, Seq<char>)>,
    start: Seq<char>,
    s: Set<Seq<char>>,
    path: Seq<Seq<char>>,
    k: int,
)
    requires
        is_link_path(ps, start, path),
        0 <= k < path.len(),
        s.contains(start),
        forall|w: Seq<char>| #[trigger] s.contains(w) ==> links_of(ps, w).subset_of(s),
    ensures
        s.contains(path[k]),
    decreases k,
{
    if k > 0 {
        lemma_path_in_closed(ps, start, s, path, k - 1);
        assert(links_of(ps, path[k - 1]).contains(path[k]));
        assert(links_of(ps, path[k - 1]).subset_of(s));
    }
}

/// A set that contains the start URL and is closed under the link relation
/// contains every URL reachable from the start URL.
pub proof fn lemma_closed_contains_reachable(
    ps: Seq<(Seq<char>, Seq<char>)>,
    start: Seq<char>,
    s: Set<Seq<char>>,
    u: Seq<char>,
)
    requires
        s.contains(start),
        forall|w: Seq<char>| #[trigger] s.contains(w) ==> links_of(ps, w).subset_of(s),
        reachable(ps, start, u),
    ensures
        s.contains(u),
{
    let path = choose|path: Seq<Seq<char>>| is_link_path(ps, start, path) && path.last() == u;
    lemma_path_in_closed(ps, start, s, path, path.len() - 1);
}

/// Idempotence: against one unchanged site and one start URL, any two
/// crawls yield identical site map contents — each returns exactly the set
/// of reachable URLs, a function of the site and the start URL alone.
pub proof fn lemma_crawl_idempotent(
    ps: Seq<(Seq<char>, Seq<char>)>,
    start: Seq<char>,
    s1: Set<Seq<char>>,
    s2: Set<Seq<char>>,
)
    requires
        s1 == site_map_of(ps, start),
        s2 == site_map_of(ps, start),
    ensures
        s1 == s2,
{
}

/// Look up the body served for the URL `u`: the body of the first page
/// listed under `u`, if any.
fn find_body<'a>(pages: &'a Vec<(String, String)>, u: &String) -> (r: Option<&'a String>)
    ensures
        match r {
            Some(b) => page_body(pages_views(pages@), u@) == Some(b@),
            None => page_body(pages_views(pages@), u@) is None,
        },
{
    let ghost pv = pages_views(pages@);
    proof {
        assert(pv.skip(0) =~= pv);
    }
    let mut j: usize = 0;
    while j < pages.len()
        invariant
            j <= pages@.len(),
            pv == pages_views(pages@),
            page_body(pv, u@) == page_body(pv.skip(j as int), u@),
        decreases pages@.len() - j,
    {
        assert(pv.skip(j as int)[0] == pv[j as int]);
        if pages[j].0 == *u {
            assert(pv[j as int].0 == u@);
            return Some(&pages[j].1);
        }
        assert(pv[j as int].0 != u@);
        assert(pv.skip(j as int).skip(1) =~= pv.skip(j + 1));
        j = j + 1;
    }
    assert(pv.skip(pages@.len() as int).len() == 0);
    None
}

/// Crawl an in-memory site. `pages` lists the HTML page served for each URL
/// (the first entry under a URL wins); a URL with no page behaves as a
/// failed fetch and discovers nothing.
///
/// Returns `None` exactly when the start URL does not parse as an absolute
/// URL — the crawl's one caller-visible error. Otherwise returns the site
/// map — exactly the URLs reachable from the canonical start URL along
/// same-host links, each one canonical and on the start URL's host, no URL
/// twice, the start URL first — together with the number of fetch attempts
/// made, which equals the size of the site map: no URL is fetched twice.
pub fn crawl_pages(start_url: &str, pages: &Vec<(String, String)>) -> (r: Option<
    (Vec<String>, usize),
>)
    ensures
        r is Some <==> canon_of(start_url@) is Some,
        r matches Some((site, fetches)) ==> {
            let pv = pages_views(pages@);
            let c = canon_of(start_url@)->0;
            &&& seq_views(site@).to_set() == site_map_of(pv, c)
            &&& seq_views(site@).no_duplicates()
            &&& site@.len() > 0 && seq_views(site@)[0] == c
            &&& fetches == site@.len()
            &&& forall|k: int|
                0 <= k < site@.len() ==> canon_of(#[trigger] seq_views(site@)[k]) == Some(
                    seq_views(site@)[k],
                )
            &&& forall|k: int|
                0 <= k < site@.len() ==> host_of(#[trigger] seq_views(site@)[k]) == host_of(
                    start_url@,
                )
        },
{
    let seeded = Crawler::seed(start_url);
    let (mut crawler, first) = match seeded {
        None => {
            return None;
        },
        Some(p) => p,
    };
    let ghost pv = pages_views(pages@);
    let ghost c = crawler.start_url();
    let ghost pool = discovered_pool(pv).insert(c);
    let mut worklist: Vec<String> = Vec::new();
    worklist.push(first);
    let mut fetches: usize = 0;
    proof {
        lemma_pool_finite(pv);
        lemma_reachable_start(pv, c);
        assert(seq_views(worklist@) =~= seq![c]);
        assert(seq_views(worklist@).to_set() =~= Set::empty().insert(c));
        assert forall|x: Seq<char>| crawler.visited_urls().to_set().contains(x) implies x == c by {
            let j = choose|j: int|
                0 <= j < crawler.visited_urls().len() && crawler.visited_urls()[j] == x;
        };
        assert(crawler.visited_urls().to_set().contains(c));
    }
    while worklist.len() > 0
        invariant
            pv == pages_views(pages@),
            pool == discovered_pool(pv).insert(c),
            pool.finite(),
            crawler.wf(),
            crawler.start_url() == c,
            canon_of(start_url@) == Some(c),
            host_of(c) == host_of(start_url@),
            crawler.pending_count() == worklist@.len(),
            fetches as int + worklist@.len() == crawler.visited_urls().len(),
            seq_views(worklist@).no_duplicates(),
            seq_views(worklist@).to_set().subset_of(crawler.visited_urls().to_set()),
            crawler.visited_urls().to_set().subset_of(pool),
            forall|x: Seq<char>|
                #[trigger] crawler.visited_urls().to_set().contains(x) ==> seq_views(
                    worklist@,
                ).to_set().contains(x) || links_of(pv, x).subset_of(
                    crawler.visited_urls().to_set(),
                ),
            forall|x: Seq<char>|
                #[trigger] crawler.visited_urls().to_set().contains(x) ==> reachable(pv, c, x),
        decreases pool.len() - crawler.visited_urls().to_set().len(), worklist@.len(),
    {
        let ghost old_crawler = crawler;
        let ghost old_work = seq_views(worklist@);
        let u = worklist.pop().unwrap();
        let ghost u_v = u@;
        let ghost rest = seq_views(worklist@);
        proof {
            assert(old_work =~= rest.push(u_v));
            lemma_to_set_push(rest, u_v);
            assert(old_work.to_set().contains(u_v));
            assert(crawler.visited_urls().to_set().contains(u_v));
            assert(reachable(pv, c, u_v));
            let j = choose|j: int|
                0 <= j < crawler.visited_urls().len() && crawler.visited_urls()[j] == u_v;
            assert(host_of(u_v) == host_of(c));
            lemma_len_subset(crawler.visited_urls().to_set(), pool);
        }
        let n = crawler.site_map().len();
        proof {
            assert(n == crawler.visited_urls().len());
            assert(fetches as int + 1 <= n);
        }
        fetches = fetches + 1;
        let links = match find_body(pages, &u) {
            Some(b) => Some(extract_links(b.as_str(), u.as_str())),
            None => None,
        };
        let ghost ls_set = if links is Some {
            seq_views(links->0@).to_set()
        } else {
            Set::<Seq<char>>::empty()
        };
        proof {
            assert(ls_set == links_of(pv, u_v)) by {
                if links is Some {
                    assert(links_of(pv, u_v) == extracted_links(page_body(pv, u_v)->0, u_v));
                }
            };
            lemma_links_in_pool(pv, u_v);
        }
        let mut new_work = crawler.on_result(links);
        let ghost nw = seq_views(new_work@);
        worklist.append(&mut new_work);
        proof {
            let ghost vs_old = old_crawler.visited_urls();
            let ghost vs_new = crawler.visited_urls();
            assert(seq_views(worklist@) =~= rest + nw);
            assert(nw.no_duplicates()) by {
                assert(vs_new.no_duplicates());
                assert(forall|j: int| 0 <= j < nw.len() ==> nw[j] == vs_new[vs_old.len() + j]);
            };
            assert(rest.no_duplicates()) by {
                assert(forall|i: int| 0 <= i < rest.len() ==> rest[i] == old_work[i]);
            };
            assert forall|i: int, j: int|
                0 <= i < rest.len() && 0 <= j < nw.len() implies rest[i] != nw[j] by {
                assert(old_work[i] == rest[i]);
                assert(old_work.to_set().contains(rest[i]));
                assert(vs_old.to_set().contains(rest[i]));
                assert(!vs_old.to_set().contains(nw[j]));
            };
            vstd::seq_lib::lemma_no_dup_in_concat(rest, nw);
            vstd::seq_lib::seq_to_set_distributes_over_add(rest, nw);
            assert(vs_new.to_set() =~= vs_old.to_set() + ls_set);
            // every new work item sits in the new visited set
            assert forall|x: Seq<char>| nw.to_set().contains(x) implies vs_new.to_set().contains(
                x,
            ) by {
                let j = choose|j: int| 0 <= j < nw.len() && nw[j] == x;
                assert(vs_new[vs_old.len() + j] == x);
            };
            // worklist stays inside the visited set
            assert forall|x: Seq<char>| seq_views(worklist@).to_set().contains(x) implies
                vs_new.to_set().contains(x) by {
                if rest.to_set().contains(x) {
                    assert(old_work.to_set().contains(x));
                    assert(vs_old.to_set().contains(x));
                    let j = choose|j: int| 0 <= j < vs_old.len() && vs_old[j] == x;
                    assert(vs_new[j] == x);
                }
            };
            // a link of the processed page that is not newly dispatched was
            // already visited
            assert forall|x: Seq<char>|
                ls_set.contains(x) && !vs_old.to_set().contains(x) implies nw.to_set().contains(
                x,
            ) by {
                assert(vs_new.to_set().contains(x));
                let j = choose|j: int| 0 <= j < vs_new.len() && vs_new[j] == x;
                if j < vs_old.len() {
                    assert(vs_old[j] == x);
                } else {
                    assert(nw[j - vs_old.len()] == x);
                }
            };
            // completeness: each visited URL is on the worklist or fully
            // expanded
            assert forall|x: Seq<char>| #[trigger] vs_new.to_set().contains(x) implies seq_views(
                worklist@,
            ).to_set().contains(x) || links_of(pv, x).subset_of(vs_new.to_set()) by {
                if x == u_v {
                    assert(links_of(pv, u_v).subset_of(vs_new.to_set()));
                } else if vs_old.to_set().contains(x) {
                    if old_work.to_set().contains(x) {
                        assert(rest.to_set().contains(x));
                        assert(seq_views(worklist@).to_set().contains(x));
                    } else {
                        assert(links_of(pv, x).subset_of(vs_old.to_set()));
                        assert forall|y: Seq<char>| links_of(pv, x).contains(y) implies
                            vs_new.to_set().contains(y) by {
                            let j = choose|j: int| 0 <= j < vs_old.len() && vs_old[j] == y;
                            assert(vs_new[j] == y);
                        };
                    }
                } else {
                    assert(nw.to_set().contains(x));
                    assert(seq_views(worklist@).to_set().contains(x));
                }
            };
            // soundness: each newly visited URL is reachable
            assert forall|x: Seq<char>| #[trigger] vs_new.to_set().contains(x) implies reachable(
                pv,
                c,
                x,
            ) by {
                if vs_old.to_set().contains(x) {
                } else {
                    assert(ls_set.contains(x));
                    lemma_reachable_step(pv, c, u_v, x);
                }
            };
            // the visited set stays inside the pool
            assert forall|x: Seq<char>| #[trigger] vs_new.to_set().contains(x) implies
                pool.contains(x) by {
                if vs_old.to_set().contains(x) {
                } else {
                    assert(ls_set.contains(x));
                    assert(links_of(pv, u_v).subset_of(discovered_pool(pv)));
                }
            };
            // the measure: strictly fewer undiscovered URLs, or a shorter
            // worklist
            vs_old.unique_seq_to_set();
            vs_new.unique_seq_to_set();
            lemma_len_subset(vs_new.to_set(), pool);
            if nw.len() == 0 {
                assert(vs_new =~= vs_old);
            }
        }
    }
    proof {
        let ghost vs = crawler.visited_urls().to_set();
        assert(seq_views(worklist@).to_set() =~= Set::<Seq<char>>::empty()) by {
            assert(seq_views(worklist@).len() == 0);
            assert forall|x: Seq<char>| !seq_views(worklist@).to_set().contains(x) by {
                if seq_views(worklist@).contains(x) {
                    let j = choose|j: int|
                        0 <= j < seq_views(worklist@).len() && seq_views(worklist@)[j] == x;
                }
            };
        };
        assert forall|x: Seq<char>| #[trigger] vs.contains(x) implies links_of(pv, x).subset_of(
            vs,
        ) by {
            assert(!seq_views(worklist@).to_set().contains(x));
        };
        assert(vs.contains(c)) by {
            assert(crawler.visited_urls()[0] == c);
        };
        assert forall|x: Seq<char>| site_map_of(pv, c).contains(x) implies vs.contains(x) by {
            lemma_closed_contains_reachable(pv, c, vs, x);
        };
        assert(crawler.urls().to_set() =~= site_map_of(pv, c));
    }
    let site = crawler.into_site_map();
    Some((site, fetches))
}

} // verus!
