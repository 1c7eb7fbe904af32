//! Breadth-first crawl of one site under a page budget and a depth budget.
//! The decisions live in `Crawler`; whoever fetches the pages hands each
//! body back through `record_page`.
use std::collections::VecDeque;
use vstd::prelude::*;

use crate::email::{contains_string, extract_emails_from_html, found_in, views};
use crate::site::{
    host_pair, host_variants, in_scope, joined_url, resolve_link, strip_fragment, url_in_scope,
    url_key,
};

verus! {

/// The budgets of one crawl.
#[derive(Clone, Debug)]
pub struct CrawlConfig {
    pub max_pages: usize,
    pub max_depth: usize,
}

impl CrawlConfig {
    pub fn new(max_pages: usize, max_depth: usize) -> (r: Self)
        ensures
            r.max_pages == max_pages,
            r.max_depth == max_depth,
    {
        Self { max_pages, max_depth }
    }
}

/// The addresses found on a site, each once.
pub struct CrawlResult {
    pub emails: Vec<String>,
}

/// Selector of the links that a page offers.
pub const LINK_SELECTOR: &'static str = "a[href]";

/// Attribute that holds a link's target.
pub const LINK_ATTRIBUTE: &'static str = "href";

/// The values of `attr` on the elements of the HTML document `html` that
/// `selector` selects, in document order; `None` where the selector does
/// not parse.
pub uninterp spec fn selected_attrs(html: Seq<char>, selector: Seq<char>, attr: Seq<char>) -> Option<Seq<Seq<char>>>;

/// Relies on scraper::Selector::parse, scraper::Html::parse_document,
/// Html::select and Element::attr: the attribute values of the selected
/// elements in document order.
#[verifier::external_body]
fn select_attrs(html: &str, selector: &str, attr: &str) -> (r: Option<Vec<String>>)
    ensures
        crate::email::opt_views(r) == selected_attrs(html@, selector@, attr@),
{
    let sel = scraper::Selector::parse(selector).ok()?;
    let doc = scraper::Html::parse_document(html);
    Some(doc.select(&sel).map(|el| el.value().attr(attr).unwrap_or("").to_string()).collect())
}

/// The link targets written in a page, as written.
pub open spec fn page_links(html: Seq<char>) -> Seq<Seq<char>> {
    match selected_attrs(html, LINK_SELECTOR@, LINK_ATTRIBUTE@) {
        Some(v) => v,
        None => Seq::empty(),
    }
}

/// The key to enqueue for a link of the page at `base`: the resolved URL
/// without fragment, where it resolves and stays on the site.
pub open spec fn link_target(base: Seq<char>, href: Seq<char>, root: Seq<char>, www: Seq<char>) -> Option<Seq<char>> {
    match joined_url(base, href) {
        Some(u) => if in_scope(u, root, www) {
            Some(strip_fragment(u))
        } else {
            None
        },
        None => None,
    }
}

/// The keys that the links `hrefs` of the page at `base` add, in order,
/// given the keys already `seen`: each in scope and not seen before.
pub open spec fn new_keys(
    seen: Seq<Seq<char>>,
    base: Seq<char>,
    root: Seq<char>,
    www: Seq<char>,
    hrefs: Seq<Seq<char>>,
) -> Seq<Seq<char>>
    decreases hrefs.len(),
{
    if hrefs.len() == 0 {
        Seq::empty()
    } else {
        let prev = new_keys(seen, base, root, www, hrefs.drop_last());
        match link_target(base, hrefs.last(), root, www) {
            Some(k) => if (seen + prev).contains(k) {
                prev
            } else {
                prev.push(k)
            },
            None => prev,
        }
    }
}

/// What a page's links add to the frontier stays on the site, is new, and
/// comes once: each key is the target (`link_target`: the resolved URL,
/// in scope, without fragment) of one of the links, no key already seen is
/// added again, and links that differ only in their fragment add one key.
pub proof fn lemma_new_keys_sound(
    seen: Seq<Seq<char>>,
    base: Seq<char>,
    root: Seq<char>,
    www: Seq<char>,
    hrefs: Seq<Seq<char>>,
)
    ensures
        forall|i: int|
            0 <= i < new_keys(seen, base, root, www, hrefs).len() ==> !seen.contains(
                #[trigger] new_keys(seen, base, root, www, hrefs)[i],
            ) && exists|j: int|
                0 <= j < hrefs.len() && link_target(base, #[trigger] hrefs[j], root, www) == Some(
                    new_keys(seen, base, root, www, hrefs)[i],
                ),
        new_keys(seen, base, root, www, hrefs).no_duplicates(),
    decreases hrefs.len(),
{
    if hrefs.len() > 0 {
        let prev = new_keys(seen, base, root, www, hrefs.drop_last());
        lemma_new_keys_sound(seen, base, root, www, hrefs.drop_last());
        let cur = new_keys(seen, base, root, www, hrefs);
        assert forall|i: int| #![trigger prev[i]] 0 <= i < prev.len() implies exists|j: int|
            0 <= j < hrefs.len() && link_target(base, #[trigger] hrefs[j], root, www) == Some(prev[i]) by {
            let j = choose|j: int|
                0 <= j < hrefs.drop_last().len() && link_target(base, #[trigger] hrefs.drop_last()[j], root, www)
                    == Some(prev[i]);
            assert(hrefs.drop_last()[j] == hrefs[j]);
        }
        if cur != prev {
            let k = link_target(base, hrefs.last(), root, www)->0;
            assert(cur == prev.push(k));
            assert(!seen.contains(k)) by {
                if seen.contains(k) {
                    let a = choose|a: int| 0 <= a < seen.len() && seen[a] == k;
                    assert((seen + prev)[a] == k);
                }
            }
            assert forall|a: int| 0 <= a < prev.len() implies prev[a] != k by {
                assert((seen + prev)[seen.len() + a] == prev[a]);
            }
            assert(hrefs[hrefs.len() - 1] == hrefs.last());
            assert forall|i: int| 0 <= i < cur.len() implies !seen.contains(#[trigger] cur[i]) && exists|j: int|
                0 <= j < hrefs.len() && link_target(base, #[trigger] hrefs[j], root, www) == Some(cur[i]) by {
                if i < prev.len() {
                    assert(cur[i] == prev[i]);
                }
            }
        }
    }
}

/// Pairs each key with a depth.
pub open spec fn at_depth(keys: Seq<Seq<char>>, d: nat) -> Seq<(Seq<char>, nat)> {
    keys.map_values(|k: Seq<char>| (k, d))
}

/// The state of one site's crawl.
pub struct Crawler {
    frontier: VecDeque<(String, usize)>,
    visited: Vec<String>,
    emails: Vec<String>,
    issued: usize,
    fetched: usize,
    max_pages: usize,
    max_depth: usize,
    root_host: String,
    www_host: String,
}

impl Crawler {
    /// Pages not yet handed out, with their depths, first first.
    pub closed spec fn frontier(&self) -> Seq<(Seq<char>, nat)> {
        self.frontier@.map_values(|p: (String, usize)| (p.0@, p.1 as nat))
    }

    /// Keys enqueued so far, the start included.
    pub closed spec fn visited(&self) -> Seq<Seq<char>> {
        views(self.visited@)
    }

    /// Addresses found so far.
    pub closed spec fn emails(&self) -> Seq<Seq<char>> {
        views(self.emails@)
    }

    /// Pages handed out for fetching.
    pub closed spec fn issued(&self) -> nat {
        self.issued as nat
    }

    /// Pages whose fetch has come back.
    pub closed spec fn fetched(&self) -> nat {
        self.fetched as nat
    }

    pub closed spec fn max_pages(&self) -> nat {
        self.max_pages as nat
    }

    pub closed spec fn max_depth(&self) -> nat {
        self.max_depth as nat
    }

    /// The site's host without `www.`.
    pub closed spec fn root(&self) -> Seq<char> {
        self.root_host@
    }

    /// The site's host with `www.`.
    pub closed spec fn www(&self) -> Seq<char> {
        self.www_host@
    }

    /// The crawl's invariant: the page budget holds, and keys and addresses
    /// are held once each.
    pub closed spec fn wf(&self) -> bool {
        &&& self.fetched <= self.issued <= self.max_pages
        &&& views(self.visited@).no_duplicates()
        &&& views(self.emails@).no_duplicates()
    }

    /// A crawl of the site at `start_url` (an absolute URL): the start page at
    /// depth 0 is the only page to fetch and the only key visited.
    pub fn new(start_url: &str, cfg: &CrawlConfig) -> (r: Crawler)
        ensures
            r.wf(),
            r.frontier() == seq![(strip_fragment(start_url@), 0nat)],
            r.visited() == seq![strip_fragment(start_url@)],
            r.emails() == Seq::<Seq<char>>::empty(),
            r.issued() == 0,
            r.fetched() == 0,
            r.max_pages() == cfg.max_pages,
            r.max_depth() == cfg.max_depth,
            (r.root(), r.www()) == host_pair(start_url@),
    {
        let key = url_key(start_url);
        let mut frontier: VecDeque<(String, usize)> = VecDeque::new();
        frontier.push_back((key.clone(), 0));
        let mut visited: Vec<String> = Vec::new();
        visited.push(key);
        let (root_host, www_host) = host_variants(start_url);
        let r = Crawler {
            frontier,
            visited,
            emails: Vec::new(),
            issued: 0,
            fetched: 0,
            max_pages: cfg.max_pages,
            max_depth: cfg.max_depth,
            root_host,
            www_host,
        };
        assert(r.frontier() =~= seq![(strip_fragment(start_url@), 0nat)]);
        assert(r.visited() =~= seq![strip_fragment(start_url@)]);
        assert(r.emails() =~= Seq::<Seq<char>>::empty());
        r
    }

    /// Hands out the next page to fetch, first in first out, while the page
    /// budget allows; the page then counts against the budget.
    pub fn next_fetch(&mut self) -> (r: Option<(String, usize)>)
        requires
            old(self).wf(),
        ensures
            final(self).wf(),
            r is Some <==> (old(self).frontier().len() > 0 && old(self).issued() < old(self).max_pages()),
            r matches Some(p) ==> (p.0@, p.1 as nat) == old(self).frontier()[0],
            r is Some ==> final(self).frontier() == old(self).frontier().drop_first()
                && final(self).issued() == old(self).issued() + 1,
            r is None ==> final(self).frontier() == old(self).frontier() && final(self).issued()
                == old(self).issued(),
            final(self).visited() == old(self).visited(),
            final(self).emails() == old(self).emails(),
            final(self).fetched() == old(self).fetched(),
            final(self).max_pages() == old(self).max_pages(),
            final(self).max_depth() == old(self).max_depth(),
            final(self).root() == old(self).root(),
            final(self).www() == old(self).www(),
    {
        if self.issued >= self.max_pages || self.frontier.len() == 0 {
            return None;
        }
        let r = self.frontier.pop_front();
        self.issued = self.issued + 1;
        proof {
            assert(self.frontier() =~= old(self).frontier().drop_first());
        }
        r
    }

    /// No page is left to hand out: the frontier is empty or the page budget
    /// is spent.
    pub fn is_done(&self) -> (r: bool)
        ensures
            r == (self.frontier().len() == 0 || self.issued() >= self.max_pages()),
    {
        self.frontier.len() == 0 || self.issued >= self.max_pages
    }

    /// Takes in the outcome of fetching `url`, a page at `depth`: its
    /// addresses join the result, and, below the depth budget, its links on
    /// the site that were not seen before join the frontier one level deeper.
    /// A page that could not be fetched (`None`) contributes nothing.
    pub fn record_page(&mut self, url: &str, depth: usize, body: Option<String>)
        requires
            old(self).wf(),
            old(self).fetched() < old(self).issued(),
        ensures
            final(self).wf(),
            final(self).fetched() == old(self).fetched() + 1,
            final(self).issued() == old(self).issued(),
            final(self).max_pages() == old(self).max_pages(),
            final(self).max_depth() == old(self).max_depth(),
            final(self).root() == old(self).root(),
            final(self).www() == old(self).www(),
            forall|x: Seq<char>|
                #[trigger] final(self).emails().contains(x) <==> (old(self).emails().contains(x) || (
                body matches Some(b) && found_in(b@, x))),
            body is Some && depth < old(self).max_depth() ==> {
                let ks = new_keys(
                    old(self).visited(),
                    url@,
                    old(self).root(),
                    old(self).www(),
                    page_links(body->0@),
                );
                &&& final(self).visited() == old(self).visited() + ks
                &&& final(self).frontier() == old(self).frontier() + at_depth(ks, (depth + 1) as nat)
            },
            !(body is Some && depth < old(self).max_depth()) ==> final(self).visited() == old(
                self,
            ).visited() && final(self).frontier() == old(self).frontier(),
    {
        self.fetched = self.fetched + 1;
        if let Some(html) = body {
            let found = extract_emails_from_html(html.as_str());
            add_new(&mut self.emails, &found);
            if depth < self.max_depth {
                let links = match select_attrs(html.as_str(), LINK_SELECTOR, LINK_ATTRIBUTE) {
                    Some(v) => v,
                    None => Vec::new(),
                };
                self.enqueue_links(url, depth + 1, &links);
            }
        }
    }

    /// Enqueues at `depth` the keys that `hrefs`, links of the page at
    /// `base`, add.
    fn enqueue_links(&mut self, base: &str, depth: usize, hrefs: &Vec<String>)
        requires
            views(old(self).visited@).no_duplicates(),
        ensures
            views(final(self).visited@).no_duplicates(),
            final(self).visited() == old(self).visited() + new_keys(
                old(self).visited(),
                base@,
                old(self).root(),
                old(self).www(),
                views(hrefs@),
            ),
            final(self).frontier() == old(self).frontier() + at_depth(
                new_keys(old(self).visited(), base@, old(self).root(), old(self).www(), views(hrefs@)),
                depth as nat,
            ),
            final(self).emails == old(self).emails,
            final(self).issued == old(self).issued,
            final(self).fetched == old(self).fetched,
            final(self).max_pages == old(self).max_pages,
            final(self).max_depth == old(self).max_depth,
            final(self).root_host == old(self).root_host,
            final(self).www_host == old(self).www_host,
    {
        let ghost seen = self.visited();
        let ghost front = self.frontier();
        let ghost root = self.root();
        let ghost www = self.www();
        let mut i: usize = 0;
        while i < hrefs.len()
            invariant
                i <= hrefs.len(),
                views(self.visited@).no_duplicates(),
                root == self.root(),
                www == self.www(),
                self.visited() == seen + new_keys(seen, base@, root, www, views(hrefs@).take(i as int)),
                self.frontier() == front + at_depth(
                    new_keys(seen, base@, root, www, views(hrefs@).take(i as int)),
                    depth as nat,
                ),
                self.emails == old(self).emails,
                self.issued == old(self).issued,
                self.fetched == old(self).fetched,
                self.max_pages == old(self).max_pages,
                self.max_depth == old(self).max_depth,
                self.root_host == old(self).root_host,
                self.www_host == old(self).www_host,
            decreases hrefs.len() - i,
        {
            let ghost prev = new_keys(seen, base@, root, www, views(hrefs@).take(i as int));
            assert(views(hrefs@).take(i + 1).drop_last() == views(hrefs@).take(i as int));
            assert(views(hrefs@).take(i + 1).last() == hrefs@[i as int]@);
            if let Some(next) = resolve_link(base, hrefs[i].as_str()) {
                if url_in_scope(next.as_str(), self.root_host.as_str(), self.www_host.as_str()) {
                    let key = url_key(next.as_str());
                    if !contains_string(&self.visited, key.as_str()) {
                        let ghost before_v = self.visited@;
                        let ghost before_f = self.frontier();
                        let ghost kv = key@;
                        self.visited.push(key.clone());
                        self.frontier.push_back((key, depth));
                        proof {
                            assert(views(self.visited@) == views(before_v).push(key@));
                            assert(self.visited() =~= seen + prev.push(key@));
                            assert(self.frontier() =~= before_f.push((kv, depth as nat)));
                            assert(at_depth(prev.push(kv), depth as nat) =~= at_depth(prev, depth as nat).push(
                                (kv, depth as nat),
                            ));
                            assert(self.frontier() =~= front + at_depth(prev.push(kv), depth as nat));
                            assert(views(self.visited@).no_duplicates()) by {
                                assert forall|a: int, b: int|
                                    0 <= a < b < views(self.visited@).len() implies views(self.visited@)[a]
                                    != views(self.visited@)[b] by {
                                    if b == views(before_v).len() {
                                        assert(views(before_v)[a] == views(self.visited@)[a]);
                                    } else {
                                        assert(views(before_v)[a] == views(self.visited@)[a]);
                                        assert(views(before_v)[b] == views(self.visited@)[b]);
                                    }
                                }
                            }
                        }
                    }
                }
            }
            i = i + 1;
        }
        assert(views(hrefs@).take(hrefs.len() as int) =~= views(hrefs@));
    }

    /// Runs the crawl to its end, one page at a time, with `fetch` standing
    /// for the network: it gets the URL of a page and gives back its body, or
    /// `None` where the page could not be had. Returns how many pages were
    /// fetched.
    pub fn run<F: Fn(&str) -> Option<String>>(&mut self, fetch: &F) -> (n: usize)
        requires
            old(self).wf(),
            old(self).fetched() == old(self).issued(),
            forall|u: &str| fetch.requires((u,)),
        ensures
            final(self).wf(),
            final(self).frontier().len() == 0 || final(self).issued() == final(self).max_pages(),
            final(self).fetched() == final(self).issued(),
            n == final(self).issued() - old(self).issued(),
            final(self).issued() <= final(self).max_pages(),
            final(self).max_pages() == old(self).max_pages(),
            forall|x: Seq<char>| old(self).emails().contains(x) ==> #[trigger] final(self).emails().contains(x),
            forall|x: Seq<char>|
                #[trigger] final(self).emails().contains(x) ==> old(self).emails().contains(x) || exists|
                    u: &str,
                    b: Option<String>,
                | fetch.ensures((u,), b) && b is Some && found_in(b->0@, x),
            final(self).issued() == old(self).issued() ==> final(self).emails() == old(self).emails(),
    {
        let mut n: usize = 0;
        loop
            invariant
                self.wf(),
                self.fetched() == self.issued(),
                n == self.issued() - old(self).issued(),
                self.max_pages() == old(self).max_pages(),
                forall|u: &str| fetch.requires((u,)),
                forall|x: Seq<char>| old(self).emails().contains(x) ==> #[trigger] self.emails().contains(x),
                forall|x: Seq<char>|
                    #[trigger] self.emails().contains(x) ==> old(self).emails().contains(x) || exists|
                        u: &str,
                        b: Option<String>,
                    | fetch.ensures((u,), b) && b is Some && found_in(b->0@, x),
                self.issued() == old(self).issued() ==> self.emails() == old(self).emails(),
            ensures
                self.frontier().len() == 0 || self.issued() == self.max_pages(),
            decreases self.max_pages() - self.issued(),
        {
            match self.next_fetch() {
                None => {
                    break;
                },
                Some((url, depth)) => {
                    let body = fetch(url.as_str());
                    self.record_page(url.as_str(), depth, body);
                    n = n + 1;
                },
            }
        }
        n
    }

    /// The addresses found.
    pub fn into_result(self) -> (r: CrawlResult)
        ensures
            views(r.emails@) == self.emails(),
    {
        CrawlResult { emails: self.emails }
    }
}

/// Adds to `set` each item of `items` that it does not hold yet.
fn add_new(set: &mut Vec<String>, items: &Vec<String>)
    requires
        views(old(set)@).no_duplicates(),
    ensures
        views(final(set)@).no_duplicates(),
        forall|x: Seq<char>|
            #[trigger] views(final(set)@).contains(x) <==> (views(old(set)@).contains(x) || views(
                items@,
            ).contains(x)),
{
    let ghost start = views(set@);
    let mut i: usize = 0;
    while i < items.len()
        invariant
            i <= items.len(),
            views(set@).no_duplicates(),
            forall|x: Seq<char>|
                #[trigger] views(set@).contains(x) <==> (start.contains(x) || views(items@).take(
                    i as int,
                ).contains(x)),
        decreases items.len() - i,
    {
        let ghost before = views(set@);
        let ghost prefix = views(items@).take(i as int);
        let ghost next = views(items@).take(i + 1);
        assert(next == prefix.push(items@[i as int]@));
        assert forall|x: Seq<char>| #[trigger] next.contains(x) <==> (prefix.contains(x) || x == items@[i as int]@) by {
            if next.contains(x) {
                let k = choose|k: int| 0 <= k < next.len() && #[trigger] next[k] == x;
                if k < i {
                    assert(prefix[k] == x);
                }
            }
            if prefix.contains(x) {
                let k = choose|k: int| 0 <= k < prefix.len() && #[trigger] prefix[k] == x;
                assert(next[k] == x);
            }
            if x == items@[i as int]@ {
                assert(next[i as int] == x);
            }
        }
        if !contains_string(set, items[i].as_str()) {
            set.push(items[i].clone());
            assert(views(set@) == before.push(items@[i as int]@));
            assert forall|x: Seq<char>| #[trigger] views(set@).contains(x) <==> (before.contains(x) || x == items@[i as int]@) by {
                if views(set@).contains(x) {
                    let k = choose|k: int| 0 <= k < views(set@).len() && #[trigger] views(set@)[k] == x;
                    if k < before.len() {
                        assert(before[k] == x);
                    }
                }
                if before.contains(x) {
                    let k = choose|k: int| 0 <= k < before.len() && #[trigger] before[k] == x;
                    assert(views(set@)[k] == x);
                }
                if x == items@[i as int]@ {
                    assert(views(set@)[before.len() as int] == x);
                }
            }
        }
        assert forall|x: Seq<char>|
            #[trigger] views(set@).contains(x) <==> (start.contains(x) || next.contains(x)) by {
            assert(before.contains(x) <==> (start.contains(x) || prefix.contains(x)));
        }
        i = i + 1;
    }
    assert(views(items@).take(items.len() as int) =~= views(items@));
    assert forall|x: Seq<char>|
        #[trigger] views(set@).contains(x) <==> (start.contains(x) || views(items@).contains(x)) by {
        assert(views(set@).contains(x) <==> (start.contains(x) || views(items@).take(i as int).contains(x)));
    }
}

/// Crawls the site at `start_url` (an absolute URL) breadth first within the
/// budgets of `cfg`, fetching through `fetch`, and returns the addresses
/// found, each once: every one was found in the body of a fetched page.
/// Nothing is fetched under a page budget of zero.
pub fn crawl_site<F: Fn(&str) -> Option<String>>(fetch: &F, start_url: &str, cfg: &CrawlConfig) -> (r: CrawlResult)
    requires
        forall|u: &str| fetch.requires((u,)),
    ensures
        views(r.emails@).no_duplicates(),
        forall|x: Seq<char>|
            #[trigger] views(r.emails@).contains(x) ==> exists|u: &str, b: Option<String>|
                fetch.ensures((u,), b) && b is Some && found_in(b->0@, x),
        cfg.max_pages == 0 ==> r.emails@.len() == 0,
{
    let mut crawler = Crawler::new(start_url, cfg);
    let n = crawler.run(fetch);
    proof {
        if cfg.max_pages == 0 {
            assert(crawler.issued() == 0);
            assert(crawler.emails().len() == 0);
        }
    }
    crawler.into_result()
}

/// The page budget holds in every state of a crawl: no more pages are
/// handed out, and so fetched, than `max_pages`, whatever the link graph.
pub proof fn lemma_page_budget(c: &Crawler)
    requires
        c.wf(),
    ensures
        c.fetched() <= c.issued() <= c.max_pages(),
{
}

} // verus!
