//! URLs as text: canonical keys, host scope, and the calls into `url` that
//! parse and resolve them.
use vstd::prelude::*;

use crate::text::{ascii_lower, eq_ignore_case, has_prefix, starts_with_str, trim, trim_str, www_prefix};

verus! {

/// Index of the first `c` in `s`, or the length where there is none.
pub open spec fn index_of(s: Seq<char>, c: char) -> int
    decreases s.len(),
{
    if s.len() == 0 {
        0
    } else if s[0] == c {
        0
    } else {
        1 + index_of(s.drop_first(), c)
    }
}

/// A URL with its fragment (from the first `#` on) removed.
pub open spec fn strip_fragment(u: Seq<char>) -> Seq<char> {
    u.take(index_of(u, '#'))
}

proof fn lemma_index_of_bound(s: Seq<char>, c: char)
    ensures
        0 <= index_of(s, c) <= s.len(),
    decreases s.len(),
{
    if s.len() > 0 && s[0] != c {
        lemma_index_of_bound(s.drop_first(), c);
    }
}

/// The identity of a URL for visiting and caching: its text without fragment.
pub fn url_key(u: &str) -> (r: String)
    ensures
        r@ == strip_fragment(u@),
{
    let n = u.unicode_len();
    let mut i: usize = 0;
    proof {
        lemma_index_of_bound(u@, '#');
        assert(u@.skip(0) == u@);
    }
    while i < n && u.get_char(i) != '#'
        invariant
            n == u@.len(),
            i <= n,
            index_of(u@, '#') == i + index_of(u@.skip(i as int), '#'),
        decreases n - i,
    {
        assert(u@.skip(i as int).drop_first() == u@.skip(i + 1));
        i = i + 1;
    }
    assert(index_of(u@.skip(i as int), '#') == 0);
    String::from_str(u.substring_char(0, i))
}

proof fn lemma_index_of_prefix(base: Seq<char>, rest: Seq<char>, c: char)
    requires
        !base.contains(c),
    ensures
        index_of(base + rest, c) == base.len() + index_of(rest, c),
    decreases base.len(),
{
    if base.len() > 0 {
        assert((base + rest).drop_first() == base.drop_first() + rest);
        assert(!base.drop_first().contains(c)) by {
            if base.drop_first().contains(c) {
                let k = choose|k: int| 0 <= k < base.drop_first().len() && base.drop_first()[k] == c;
                assert(base[k + 1] == c);
            }
        }
        assert(base[0] != c) by {
            assert(base.contains(base[0]) || base.len() == 0);
        }
        lemma_index_of_prefix(base.drop_first(), rest, c);
    } else {
        assert(base + rest == rest);
    }
}

/// URLs that differ only in their fragment have the same key, and a URL
/// without fragment is its own key.
pub proof fn lemma_fragment_ignored(base: Seq<char>, f1: Seq<char>, f2: Seq<char>)
    requires
        !base.contains('#'),
    ensures
        strip_fragment(base) == base,
        strip_fragment(base + seq!['#'] + f1) == base,
        strip_fragment(base + seq!['#'] + f1) == strip_fragment(base + seq!['#'] + f2),
{
    lemma_index_of_prefix(base, Seq::empty(), '#');
    assert(base + Seq::<char>::empty() == base);
    lemma_index_of_prefix(base, seq!['#'] + f1, '#');
    lemma_index_of_prefix(base, seq!['#'] + f2, '#');
    assert(base + seq!['#'] + f1 == base + (seq!['#'] + f1));
    assert(base + seq!['#'] + f2 == base + (seq!['#'] + f2));
    assert((base + (seq!['#'] + f1)).take(base.len() as int) == base);
    assert((base + (seq!['#'] + f2)).take(base.len() as int) == base);
    assert(base.take(base.len() as int) == base);
}

/// The serialization of `s` parsed as an absolute URL, if it parses.
pub uninterp spec fn parsed_url(s: Seq<char>) -> Option<Seq<char>>;

/// The serialization of `href` resolved against the absolute URL `base`.
pub uninterp spec fn joined_url(base: Seq<char>, href: Seq<char>) -> Option<Seq<char>>;

/// The host of the absolute URL `u`, if it parses and has one.
pub uninterp spec fn url_host(u: Seq<char>) -> Option<Seq<char>>;

pub open spec fn opt_seq(o: Option<String>) -> Option<Seq<char>> {
    match o {
        Some(s) => Some(s@),
        None => None,
    }
}

/// Relies on url::Url::parse: the serialized URL, or `None` where the text
/// is not an absolute URL.
#[verifier::external_body]
fn parse_url(s: &str) -> (r: Option<String>)
    ensures
        opt_seq(r) == parsed_url(s@),
{
    url::Url::parse(s).ok().map(|u| String::from(u.as_str()))
}

/// Relies on url::Url::parse of the base and url::Url::join: `href`
/// resolved against `base`, serialized.
#[verifier::external_body]
pub(crate) fn resolve_link(base: &str, href: &str) -> (r: Option<String>)
    ensures
        opt_seq(r) == joined_url(base@, href@),
{
    url::Url::parse(base).ok().and_then(|b| b.join(href).ok()).map(|u| String::from(u.as_str()))
}

/// Relies on url::Url::parse and url::Url::host_str: the host of `u`.
#[verifier::external_body]
pub(crate) fn site_host_text(u: &str) -> (r: Option<String>)
    ensures
        opt_seq(r) == url_host(u@),
{
    url::Url::parse(u).ok().and_then(|x| x.host_str().map(String::from))
}

/// One leading `www.` removed.
pub open spec fn strip_one_www(h: Seq<char>) -> Seq<char> {
    if has_prefix(h, www_prefix()) {
        h.skip(4)
    } else {
        h
    }
}

/// `h` without one leading `www.`.
pub fn without_www(h: &str) -> (r: &str)
    ensures
        r@ == strip_one_www(h@),
{
    proof {
        reveal_strlit("www.");
        assert("www."@ =~= www_prefix());
    }
    if starts_with_str(h, "www.") {
        let n = h.unicode_len();
        h.substring_char(4, n)
    } else {
        h
    }
}

/// The two spellings of a site's host: without and with `www.`.
pub open spec fn host_pair(start: Seq<char>) -> (Seq<char>, Seq<char>) {
    let host = match url_host(start) {
        Some(h) => h,
        None => Seq::empty(),
    };
    let root = strip_one_www(host);
    (root, www_prefix() + root)
}

/// The host of `start` (empty where it has none), without and with `www.`.
pub fn host_variants(start: &str) -> (r: (String, String))
    ensures
        (r.0@, r.1@) == host_pair(start@),
{
    let host = match site_host_text(start) {
        Some(h) => h,
        None => String::new(),
    };
    proof {
        reveal_strlit("www.");
        assert("www."@ =~= www_prefix());
    }
    let root = String::from_str(without_www(host.as_str()));
    let www = String::from_str("www.").concat(root.as_str());
    (root, www)
}

/// The URL's host is either spelling of the site's host, ignoring ASCII case.
pub open spec fn in_scope(u: Seq<char>, root: Seq<char>, www: Seq<char>) -> bool {
    match url_host(u) {
        Some(h) => ascii_lower(h) == ascii_lower(root) || ascii_lower(h) == ascii_lower(www),
        None => false,
    }
}

/// Whether a URL stays on the site.
pub fn url_in_scope(u: &str, root_host: &str, www_host: &str) -> (r: bool)
    ensures
        r == in_scope(u@, root_host@, www_host@),
{
    match site_host_text(u) {
        Some(h) => eq_ignore_case(h.as_str(), root_host) || eq_ignore_case(h.as_str(), www_host),
        None => false,
    }
}

/// `https://` is put in front of text that names no scheme.
pub open spec fn with_scheme(t: Seq<char>) -> Seq<char> {
    if has_prefix(t, seq!['h', 't', 't', 'p', ':', '/', '/']) || has_prefix(
        t,
        seq!['h', 't', 't', 'p', 's', ':', '/', '/'],
    ) {
        t
    } else {
        seq!['h', 't', 't', 'p', 's', ':', '/', '/'] + t
    }
}

/// The start URL of a crawl for a website as written in a row: trimmed,
/// given a scheme where it has none, parsed, and without fragment.
pub open spec fn start_url_of(raw: Seq<char>) -> Option<Seq<char>> {
    match parsed_url(with_scheme(trim(raw))) {
        Some(u) => Some(strip_fragment(u)),
        None => None,
    }
}

/// The start URL for a website as written in a row, or `None` where it does
/// not parse.
pub fn normalize_start_url(raw: &str) -> (r: Option<String>)
    ensures
        opt_seq(r) == start_url_of(raw@),
{
    let t = trim_str(raw);
    proof {
        reveal_strlit("http://");
        reveal_strlit("https://");
        assert("http://"@ =~= seq!['h', 't', 't', 'p', ':', '/', '/']);
        assert("https://"@ =~= seq!['h', 't', 't', 'p', 's', ':', '/', '/']);
    }
    let s = if starts_with_str(t, "http://") || starts_with_str(t, "https://") {
        String::from_str(t)
    } else {
        String::from_str("https://").concat(t)
    };
    match parse_url(s.as_str()) {
        Some(u) => Some(url_key(u.as_str())),
        None => None,
    }
}

} // verus!
