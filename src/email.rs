//! Ranking of candidate addresses: a preference class from the local part,
//! a same-site partition, and a deterministic tiebreak on the address.
use vstd::prelude::*;

use crate::text::{
    ascii_lower, eq_ignore_case, lemma_seq_lt_asymmetric, lemma_seq_lt_total,
    lemma_seq_lt_transitive, seq_lt, str_eq, str_lt, to_ascii_lower, trim, trim_str,
};
use crate::site::{strip_one_www, without_www};

verus! {

/// The preference class of a local part: `Contact` before `Info` before
/// `Sales` before every other name, and other names in lexicographic order.
#[derive(Debug, Clone, PartialEq, Eq, PartialOrd, Ord)]
pub enum EmailPreference {
    Contact,
    Info,
    Sales,
    Other(String),
}

pub open spec fn word_contact() -> Seq<char> {
    seq!['c', 'o', 'n', 't', 'a', 'c', 't']
}

pub open spec fn word_info() -> Seq<char> {
    seq!['i', 'n', 'f', 'o']
}

pub open spec fn word_sales() -> Seq<char> {
    seq!['s', 'a', 'l', 'e', 's']
}

/// The sort key of a preference: its rank, then (for other names) the name.
pub open spec fn pref_view(p: EmailPreference) -> (nat, Seq<char>) {
    match p {
        EmailPreference::Contact => (0, Seq::empty()),
        EmailPreference::Info => (1, Seq::empty()),
        EmailPreference::Sales => (2, Seq::empty()),
        EmailPreference::Other(s) => (3, s@),
    }
}

/// The sort key of the preference class of a local part.
pub open spec fn pref_key(local: Seq<char>) -> (nat, Seq<char>) {
    let l = ascii_lower(local);
    if l == word_contact() {
        (0, Seq::empty())
    } else if l == word_info() {
        (1, Seq::empty())
    } else if l == word_sales() {
        (2, Seq::empty())
    } else {
        (3, l)
    }
}

/// Strict order of preference keys.
pub open spec fn key_lt(a: (nat, Seq<char>), b: (nat, Seq<char>)) -> bool {
    a.0 < b.0 || (a.0 == b.0 && seq_lt(a.1, b.1))
}

/// The preference class of a local part, compared case-insensitively.
pub fn rank_local_part(local: &str) -> (r: EmailPreference)
    ensures
        pref_view(r) == pref_key(local@),
{
    let l = to_ascii_lower(local);
    proof {
        reveal_strlit("contact");
        reveal_strlit("info");
        reveal_strlit("sales");
        assert("contact"@ =~= word_contact());
        assert("info"@ =~= word_info());
        assert("sales"@ =~= word_sales());
    }
    if str_eq(l.as_str(), "contact") {
        EmailPreference::Contact
    } else if str_eq(l.as_str(), "info") {
        EmailPreference::Info
    } else if str_eq(l.as_str(), "sales") {
        EmailPreference::Sales
    } else {
        EmailPreference::Other(l)
    }
}

/// `a` is preferred to `b`.
fn pref_lt(a: &EmailPreference, b: &EmailPreference) -> (r: bool)
    ensures
        r == key_lt(pref_view(*a), pref_view(*b)),
{
    match (a, b) {
        (EmailPreference::Other(x), EmailPreference::Other(y)) => str_lt(x.as_str(), y.as_str()),
        _ => pref_rank_of(a) < pref_rank_of(b),
    }
}

fn pref_rank_of(p: &EmailPreference) -> (r: u8)
    ensures
        r as nat == pref_view(*p).0,
{
    match p {
        EmailPreference::Contact => 0,
        EmailPreference::Info => 1,
        EmailPreference::Sales => 2,
        EmailPreference::Other(_) => 3,
    }
}

/// Number of `@` in a string.
pub open spec fn count_at(s: Seq<char>) -> nat
    decreases s.len(),
{
    if s.len() == 0 {
        0
    } else {
        count_at(s.drop_last()) + if s.last() == '@' {
            1nat
        } else {
            0nat
        }
    }
}

/// Index of the first `@`, or the length where there is none.
pub open spec fn first_at(s: Seq<char>) -> int
    decreases s.len(),
{
    if s.len() == 0 {
        0
    } else if count_at(s.drop_last()) > 0 {
        first_at(s.drop_last())
    } else if s.last() == '@' {
        s.len() - 1
    } else {
        s.len() as int
    }
}

/// What precedes the first `@` (the whole string where there is none).
pub open spec fn local_part(e: Seq<char>) -> Seq<char> {
    e.take(first_at(e))
}

/// What follows the first `@`.
pub open spec fn domain_part(e: Seq<char>) -> Seq<char> {
    e.skip(first_at(e) + 1)
}

/// The address splits into exactly one local part and one domain.
pub open spec fn well_formed_email(e: Seq<char>) -> bool {
    count_at(e) == 1
}

/// `c` ranks strictly ahead of `e`: a better preference class, or the same
/// class and a lexicographically smaller address.
pub open spec fn ranks_before(c: Seq<char>, e: Seq<char>) -> bool {
    let kc = pref_key(local_part(c));
    let ke = pref_key(local_part(e));
    key_lt(kc, ke) || (!key_lt(ke, kc) && seq_lt(c, e))
}

/// A host with surrounding white space and one leading `www.` removed.
pub open spec fn root_of(host: Seq<char>) -> Seq<char> {
    strip_one_www(trim(host))
}

/// A domain and a host name the same site, ignoring ASCII case and `www.`.
pub open spec fn same_site(domain: Seq<char>, host: Seq<char>) -> bool {
    ascii_lower(root_of(domain)) == ascii_lower(root_of(host))
}

/// Splits an address at its first `@`; `None` unless there is exactly one.
fn split_email(e: &str) -> (r: Option<(&str, &str)>)
    ensures
        r is Some <==> well_formed_email(e@),
        r matches Some((l, d)) ==> l@ == local_part(e@) && d@ == domain_part(e@),
{
    let n = e.unicode_len();
    let mut count: usize = 0;
    let mut first: usize = 0;
    let mut i: usize = 0;
    while i < n
        invariant
            n == e@.len(),
            i <= n,
            count == count_at(e@.take(i as int)),
            count <= i,
            first == first_at(e@.take(i as int)),
            count > 0 ==> first < i,
        decreases n - i,
    {
        assert(e@.take(i + 1).drop_last() == e@.take(i as int));
        if e.get_char(i) == '@' {
            if count == 0 {
                first = i;
            }
            count = count + 1;
        } else if count == 0 {
            first = i + 1;
        }
        i = i + 1;
    }
    assert(e@.take(n as int) == e@);
    if count != 1 {
        return None;
    }
    let l = e.substring_char(0, first);
    let d = e.substring_char(first + 1, n);
    assert(l@ == e@.take(first as int));
    assert(d@ == e@.skip(first + 1));
    Some((l, d))
}

/// `candidate` (whose class is `cand_pref`) ranks strictly ahead of `current`.
fn better(candidate: &str, current: &str, cand_pref: &EmailPreference) -> (r: bool)
    requires
        pref_view(*cand_pref) == pref_key(local_part(candidate@)),
    ensures
        r == ranks_before(candidate@, current@),
{
    let cur_local = local_prefix(current);
    let cur_pref = rank_local_part(cur_local);
    if pref_lt(cand_pref, &cur_pref) {
        return true;
    }
    if pref_lt(&cur_pref, cand_pref) {
        return false;
    }
    str_lt(candidate, current)
}

/// What precedes the first `@` of `e`.
fn local_prefix(e: &str) -> (r: &str)
    ensures
        r@ == local_part(e@),
{
    let n = e.unicode_len();
    let mut count: usize = 0;
    let mut first: usize = 0;
    let mut i: usize = 0;
    while i < n && count == 0
        invariant
            n == e@.len(),
            i <= n,
            count == count_at(e@.take(i as int)),
            count <= 1,
            first == first_at(e@.take(i as int)),
            first <= i,
        decreases n - i,
    {
        assert(e@.take(i + 1).drop_last() == e@.take(i as int));
        if e.get_char(i) == '@' {
            first = i;
            count = 1;
        } else {
            first = i + 1;
        }
        i = i + 1;
    }
    proof {
        if i < n {
            lemma_first_at_stable(e@, i as int);
        } else {
            assert(e@.take(n as int) == e@);
        }
    }
    e.substring_char(0, first)
}

/// Once an `@` has been seen, a longer prefix keeps the same first `@`.
proof fn lemma_first_at_stable(s: Seq<char>, i: int)
    requires
        0 <= i <= s.len(),
        count_at(s.take(i)) > 0,
    ensures
        first_at(s) == first_at(s.take(i)),
        count_at(s) > 0,
    decreases s.len() - i,
{
    if i < s.len() {
        assert(s.take(i + 1).drop_last() == s.take(i));
        lemma_first_at_stable(s, i + 1);
    } else {
        assert(s.take(i) == s);
    }
}

/// The ranking order is transitive.
pub proof fn lemma_ranks_before_transitive(a: Seq<char>, b: Seq<char>, c: Seq<char>)
    requires
        ranks_before(a, b),
        ranks_before(b, c),
    ensures
        ranks_before(a, c),
{
    let ka = pref_key(local_part(a));
    let kb = pref_key(local_part(b));
    let kc = pref_key(local_part(c));
    if seq_lt(ka.1, kb.1) && seq_lt(kb.1, kc.1) {
        lemma_seq_lt_transitive(ka.1, kb.1, kc.1);
    }
    if seq_lt(a, b) && seq_lt(b, c) {
        lemma_seq_lt_transitive(a, b, c);
    }
    if ka.1 != kb.1 {
        lemma_seq_lt_total(ka.1, kb.1);
    }
    if kb.1 != kc.1 {
        lemma_seq_lt_total(kb.1, kc.1);
    }
    if ka.1 != kc.1 {
        lemma_seq_lt_total(ka.1, kc.1);
    }
    if seq_lt(ka.1, kb.1) {
        lemma_seq_lt_asymmetric(ka.1, kb.1);
    }
    if seq_lt(kb.1, kc.1) {
        lemma_seq_lt_asymmetric(kb.1, kc.1);
    }
    if seq_lt(ka.1, kc.1) {
        lemma_seq_lt_asymmetric(ka.1, kc.1);
    }
    if seq_lt(kb.1, ka.1) && seq_lt(kc.1, kb.1) {
        lemma_seq_lt_transitive(kc.1, kb.1, ka.1);
    }
}

/// A host with surrounding white space and one leading `www.` removed.
fn root_host(host: &str) -> (r: String)
    ensures
        r@ == root_of(host@),
{
    String::from_str(without_www(trim_str(host)))
}

/// An email's domain and a site's host name the same site.
fn is_same_domain(email_domain: &str, website_host: &str) -> (r: bool)
    ensures
        r == same_site(email_domain@, website_host@),
{
    let email_root = root_host(email_domain);
    let site_root = root_host(website_host);
    eq_ignore_case(email_root.as_str(), site_root.as_str())
}

/// The address is well formed and its domain is (or is not, per `same`) the
/// site's own.
pub open spec fn in_partition(e: Seq<char>, host: Seq<char>, same: bool) -> bool {
    well_formed_email(e) && same_site(domain_part(e), host) == same
}

/// Some candidate lies in the partition.
pub open spec fn partition_nonempty(cands: Seq<Seq<char>>, host: Seq<char>, same: bool) -> bool {
    exists|i: int| 0 <= i < cands.len() && in_partition(cands[i], host, same)
}

/// `e` is a candidate of the partition and no candidate of it ranks ahead.
pub open spec fn best_of_partition(
    e: Seq<char>,
    cands: Seq<Seq<char>>,
    host: Seq<char>,
    same: bool,
) -> bool {
    &&& cands.contains(e)
    &&& in_partition(e, host, same)
    &&& forall|i: int|
        0 <= i < cands.len() && in_partition(cands[i], host, same) ==> !ranks_before(cands[i], e)
}

/// What the ranker owes: the best same-site address where there is one,
/// else the best other address, else nothing.
pub open spec fn is_choice(r: Option<Seq<char>>, cands: Seq<Seq<char>>, host: Seq<char>) -> bool {
    if partition_nonempty(cands, host, true) {
        r matches Some(e) && best_of_partition(e, cands, host, true)
    } else if partition_nonempty(cands, host, false) {
        r matches Some(e) && best_of_partition(e, cands, host, false)
    } else {
        r is None
    }
}

pub open spec fn views(v: Seq<String>) -> Seq<Seq<char>> {
    v.map_values(|s: String| s@)
}

pub open spec fn opt_view(o: Option<String>) -> Option<Seq<char>> {
    match o {
        Some(s) => Some(s@),
        None => None,
    }
}

/// The running best of one partition over a prefix of the candidates.
pub open spec fn slot_ok(slot: Option<Seq<char>>, seen: Seq<Seq<char>>, host: Seq<char>, same: bool) -> bool {
    &&& slot is None <==> !partition_nonempty(seen, host, same)
    &&& slot matches Some(b) ==> best_of_partition(b, seen, host, same)
}

/// A candidate outside the partition leaves its running best as it is.
proof fn lemma_slot_skip(
    slot: Option<Seq<char>>,
    seen: Seq<Seq<char>>,
    x: Seq<char>,
    host: Seq<char>,
    same: bool,
)
    requires
        slot_ok(slot, seen, host, same),
        !in_partition(x, host, same),
    ensures
        slot_ok(slot, seen.push(x), host, same),
{
    let next = seen.push(x);
    assert forall|k: int| 0 <= k < seen.len() implies next[k] == seen[k] by {}
    if partition_nonempty(next, host, same) {
        let k = choose|k: int| 0 <= k < next.len() && in_partition(#[trigger] next[k], host, same);
        assert(k < seen.len());
    }
    if partition_nonempty(seen, host, same) {
        let k = choose|k: int| 0 <= k < seen.len() && in_partition(#[trigger] seen[k], host, same);
        assert(next[k] == seen[k]);
    }
    if let Some(b) = slot {
        let kb = choose|kb: int| 0 <= kb < seen.len() && #[trigger] seen[kb] == b;
        assert(next[kb] == b);
    }
}

/// A candidate of the partition replaces the running best exactly when it
/// ranks ahead of it.
proof fn lemma_slot_take(
    slot: Option<Seq<char>>,
    seen: Seq<Seq<char>>,
    x: Seq<char>,
    host: Seq<char>,
    same: bool,
)
    requires
        slot_ok(slot, seen, host, same),
        in_partition(x, host, same),
    ensures
        slot_ok(
            if slot matches Some(b) && !ranks_before(x, b) { slot } else { Some(x) },
            seen.push(x),
            host,
            same,
        ),
{
    let next = seen.push(x);
    assert forall|k: int| 0 <= k < seen.len() implies next[k] == seen[k] by {}
    assert(next[seen.len() as int] == x);
    assert(partition_nonempty(next, host, same));
    if slot is Some && !ranks_before(x, slot->0) {
        let b = slot->0;
        let kb = choose|kb: int| 0 <= kb < seen.len() && #[trigger] seen[kb] == b;
        assert(next[kb] == b);
    } else {
        assert(next.contains(x));
        assert forall|k: int| 0 <= k < next.len() && in_partition(next[k], host, same) implies !ranks_before(
            next[k],
            x,
        ) by {
            if k < seen.len() {
                if let Some(b) = slot {
                    assert(!ranks_before(seen[k], b));
                    if ranks_before(next[k], x) {
                        lemma_ranks_before_transitive(next[k], x, b);
                    }
                } else {
                    assert(partition_nonempty(seen, host, same));
                }
            } else {
                lemma_no_self_rank(x);
            }
        }
    }
}

/// Chooses one address for a site: same-site addresses before others, then
/// the preference class, then the lexicographically smaller address.
/// Candidates without exactly one `@` are skipped.
pub fn choose_best_email(candidates: &Vec<String>, website_host: &str) -> (r: Option<String>)
    ensures
        is_choice(opt_view(r), views(candidates@), website_host@),
{
    let ghost cands = views(candidates@);
    let ghost host = website_host@;
    let mut best_same: Option<String> = None;
    let mut best_other: Option<String> = None;
    let mut i: usize = 0;
    while i < candidates.len()
        invariant
            i <= candidates.len(),
            cands == views(candidates@),
            host == website_host@,
            slot_ok(opt_view(best_same), cands.take(i as int), host, true),
            slot_ok(opt_view(best_other), cands.take(i as int), host, false),
        decreases candidates.len() - i,
    {
        let e = &candidates[i];
        let ghost prev = cands.take(i as int);
        assert(cands.take(i + 1) == prev.push(e@));
        match split_email(e.as_str()) {
            None => {
                proof {
                    lemma_slot_skip(opt_view(best_same), prev, e@, host, true);
                    lemma_slot_skip(opt_view(best_other), prev, e@, host, false);
                }
            },
            Some((local, domain)) => {
                let pref = rank_local_part(local);
                let is_same = is_same_domain(domain, website_host);
                proof {
                    if is_same {
                        lemma_slot_take(opt_view(best_same), prev, e@, host, true);
                        lemma_slot_skip(opt_view(best_other), prev, e@, host, false);
                    } else {
                        lemma_slot_skip(opt_view(best_same), prev, e@, host, true);
                        lemma_slot_take(opt_view(best_other), prev, e@, host, false);
                    }
                }
                let slot = if is_same { &mut best_same } else { &mut best_other };
                let replace = match slot {
                    Some(current) => better(e.as_str(), current.as_str(), &pref),
                    None => true,
                };
                if replace {
                    *slot = Some(e.clone());
                }
            },
        }
        i = i + 1;
    }
    assert(cands.take(candidates.len() as int) == cands);
    match best_same {
        Some(b) => Some(b),
        None => best_other,
    }
}

/// No address ranks ahead of itself.
pub proof fn lemma_no_self_rank(e: Seq<char>)
    ensures
        !ranks_before(e, e),
{
    crate::text::lemma_seq_lt_irreflexive(e);
    crate::text::lemma_seq_lt_irreflexive(pref_key(local_part(e)).1);
}

/// An address in normal form: surrounding white space removed, ASCII lower case.
pub open spec fn normalized(e: Seq<char>) -> Seq<char> {
    ascii_lower(trim(e))
}

/// Trims and lower-cases an address.
pub fn normalize_email(e: &str) -> (r: String)
    ensures
        r@ == normalized(e@),
{
    to_ascii_lower(trim_str(e))
}

/// What email_address accepts as a syntactically valid address.
pub uninterp spec fn email_valid(e: Seq<char>) -> bool;

/// Relies on email_address::EmailAddress::is_valid: whether the address
/// parses under its RFC-shaped grammar, a function of the text alone.
#[verifier::external_body]
pub fn validate_email(e: &str) -> (r: bool)
    ensures
        r == email_valid(e@),
{
    email_address::EmailAddress::is_valid(e)
}

/// The first capture group of each successive match of `pattern` in `text`,
/// or `None` where the pattern does not compile.
pub uninterp spec fn regex_group_one(pattern: Seq<char>, text: Seq<char>) -> Option<Seq<Seq<char>>>;

pub open spec fn opt_views(o: Option<Vec<String>>) -> Option<Seq<Seq<char>>> {
    match o {
        Some(v) => Some(views(v@)),
        None => None,
    }
}

/// Relies on regex::Regex::new and Regex::captures_iter: compiles the
/// pattern and lists capture group 1 of the non-overlapping matches in order.
#[verifier::external_body]
pub(crate) fn capture_group_one(pattern: &str, text: &str) -> (r: Option<Vec<String>>)
    ensures
        opt_views(r) == regex_group_one(pattern@, text@),
{
    match regex::Regex::new(pattern) {
        Ok(re) => Some(
            re.captures_iter(text).map(|c| c.get(1).map(|m| m.as_str().to_string()).unwrap_or_default()).collect(),
        ),
        Err(_) => None,
    }
}

/// Targets of `mailto:` links.
pub const MAILTO_PATTERN: &'static str = r#"mailto:([a-zA-Z0-9._%+-]+@[a-zA-Z0-9.-]+\.[a-zA-Z]{2,})"#;

/// Email-shaped text not preceded by another address character.
pub const RAW_EMAIL_PATTERN: &'static str = r"(?i)(?:^|[^a-z0-9._%+-])([a-z0-9._%+-]+@[a-z0-9.-]+\.[a-z]{2,})";

/// Some match in `ms` normalizes to the valid address `x`.
pub open spec fn yields(ms: Seq<Seq<char>>, x: Seq<char>) -> bool {
    email_valid(x) && exists|k: int| 0 <= k < ms.len() && normalized(#[trigger] ms[k]) == x
}

/// The matches of one pattern, none where it does not compile.
pub open spec fn matches_of(pattern: Seq<char>, text: Seq<char>) -> Seq<Seq<char>> {
    match regex_group_one(pattern, text) {
        Some(ms) => ms,
        None => Seq::empty(),
    }
}

/// `x` is an address that the extractor finds in `html`.
pub open spec fn found_in(html: Seq<char>, x: Seq<char>) -> bool {
    yields(matches_of(MAILTO_PATTERN@, html), x) || yields(matches_of(RAW_EMAIL_PATTERN@, html), x)
}

/// The set of addresses that the extractor finds in `html`.
pub open spec fn email_set(html: Seq<char>) -> Set<Seq<char>> {
    Set::new(|x: Seq<char>| found_in(html, x))
}

/// `v` holds `s`.
pub fn contains_string(v: &Vec<String>, s: &str) -> (r: bool)
    ensures
        r == views(v@).contains(s@),
{
    let mut i: usize = 0;
    while i < v.len()
        invariant
            i <= v.len(),
            forall|k: int| 0 <= k < i ==> v@[k]@ != s@,
        decreases v.len() - i,
    {
        if str_eq(v[i].as_str(), s) {
            assert(views(v@)[i as int] == s@);
            return true;
        }
        i = i + 1;
    }
    assert forall|k: int| 0 <= k < views(v@).len() implies views(v@)[k] != s@ by {
        assert(views(v@)[k] == v@[k]@);
    }
    false
}

/// Adds each match, normalized, that passes validation and is not yet held.
fn add_valid(set: &mut Vec<String>, ms: &Vec<String>)
    requires
        views(old(set)@).no_duplicates(),
    ensures
        views(final(set)@).no_duplicates(),
        forall|x: Seq<char>|
            #[trigger] views(final(set)@).contains(x) <==> (views(old(set)@).contains(x) || yields(
                views(ms@),
                x,
            )),
{
    let ghost start = views(set@);
    let mut i: usize = 0;
    while i < ms.len()
        invariant
            i <= ms.len(),
            views(set@).no_duplicates(),
            forall|x: Seq<char>|
                views(set@).contains(x) <==> (start.contains(x) || yields(views(ms@).take(i as int), x)),
        decreases ms.len() - i,
    {
        let e = normalize_email(ms[i].as_str());
        let ghost prefix = views(ms@).take(i as int);
        let ghost next = views(ms@).take(i + 1);
        assert(next == prefix.push(ms@[i as int]@));
        assert forall|x: Seq<char>| yields(next, x) <==> (yields(prefix, x) || (email_valid(x) && x == e@)) by {
            if yields(next, x) {
                let k = choose|k: int| 0 <= k < next.len() && normalized(#[trigger] next[k]) == x;
                if k < i {
                    assert(prefix[k] == next[k]);
                }
            }
            if yields(prefix, x) {
                let k = choose|k: int| 0 <= k < prefix.len() && normalized(#[trigger] prefix[k]) == x;
                assert(prefix[k] == next[k]);
            }
            if email_valid(x) && x == e@ {
                assert(normalized(next[i as int]) == x);
            }
        }
        let ghost before = views(set@);
        assert(forall|x: Seq<char>| #[trigger] before.contains(x) <==> (start.contains(x) || yields(prefix, x)));
        let valid = validate_email(e.as_str());
        if valid && !contains_string(set, e.as_str()) {
            set.push(e);
            assert(views(set@) == before.push(e@));
            assert forall|x: Seq<char>| views(set@).contains(x) <==> (before.contains(x) || x == e@) by {
                if views(set@).contains(x) {
                    let k = choose|k: int| 0 <= k < views(set@).len() && #[trigger] views(set@)[k] == x;
                    if k < before.len() {
                        assert(before[k] == x);
                    }
                }
                if before.contains(x) {
                    let k = choose|k: int| 0 <= k < before.len() && #[trigger] before[k] == x;
                    assert(views(set@)[k] == x);
                }
                if x == e@ {
                    assert(views(set@)[before.len() as int] == x);
                }
            }
        }
        assert forall|x: Seq<char>|
            views(set@).contains(x) <==> (start.contains(x) || yields(next, x)) by {
            assert(yields(next, x) <==> (yields(prefix, x) || (email_valid(x) && x == e@)));
            assert(before.contains(x) <==> (start.contains(x) || yields(prefix, x)));
            if views(set@) != before {
                assert(views(set@).contains(x) <==> (before.contains(x) || x == e@));
                assert(valid);
            } else if x == e@ && email_valid(x) {
                assert(valid);
                assert(before.contains(x));
            }
        }
        i = i + 1;
    }
    assert(views(ms@).take(ms.len() as int) =~= views(ms@));
    assert forall|x: Seq<char>|
        #[trigger] views(set@).contains(x) <==> (start.contains(x) || yields(views(ms@), x)) by {
        assert(views(set@).contains(x) <==> (start.contains(x) || yields(views(ms@).take(i as int), x)));
    }
}

/// Addresses in page text: `mailto:` targets and free-standing email-shaped
/// text, each normalized and kept only if it validates, without repeats.
pub fn extract_emails_from_html(html: &str) -> (r: Vec<String>)
    ensures
        views(r@).no_duplicates(),
        forall|x: Seq<char>| views(r@).contains(x) <==> found_in(html@, x),
        views(r@).to_set() == email_set(html@),
{
    let mut set: Vec<String> = Vec::new();
    assert(views(set@) == Seq::<Seq<char>>::empty());
    let mailto = match capture_group_one(MAILTO_PATTERN, html) {
        Some(ms) => ms,
        None => Vec::new(),
    };
    assert(views(mailto@) == matches_of(MAILTO_PATTERN@, html@));
    add_valid(&mut set, &mailto);
    let ghost mid = views(set@);
    let raw = match capture_group_one(RAW_EMAIL_PATTERN, html) {
        Some(ms) => ms,
        None => Vec::new(),
    };
    assert(views(raw@) == matches_of(RAW_EMAIL_PATTERN@, html@));
    add_valid(&mut set, &raw);
    assert forall|x: Seq<char>| #[trigger] views(set@).contains(x) <==> found_in(html@, x) by {
        assert(mid.contains(x) <==> yields(views(mailto@), x));
        assert(views(set@).contains(x) <==> (mid.contains(x) || yields(views(raw@), x)));
    }
    assert(views(set@).to_set() =~= email_set(html@));
    set
}

/// Extraction is idempotent: every address it finds is already in normal
/// form, so normalizing it again, as the crawl does, changes nothing.
pub proof fn lemma_extraction_idempotent(html: Seq<char>, x: Seq<char>)
    requires
        email_set(html).contains(x),
    ensures
        normalized(x) == x,
{
    let m1 = matches_of(MAILTO_PATTERN@, html);
    let m2 = matches_of(RAW_EMAIL_PATTERN@, html);
    if yields(m1, x) {
        let k = choose|k: int| 0 <= k < m1.len() && normalized(#[trigger] m1[k]) == x;
        crate::text::lemma_normalize_idempotent(m1[k]);
    } else {
        let k = choose|k: int| 0 <= k < m2.len() && normalized(#[trigger] m2[k]) == x;
        crate::text::lemma_normalize_idempotent(m2[k]);
    }
}

} // verus!
