//! The per-row answer of a batch and the order of its output: results
//! come back tagged with their row's index, in any order, and leave in
//! the order of the rows.
use vstd::prelude::*;

use crate::email::{choose_best_email, is_choice, views};
use crate::site::url_host;

verus! {

/// The host that the ranker compares against: the start URL's host, or
/// empty where it has none.
pub open spec fn site_host(start_url: Seq<char>) -> Seq<char> {
    match url_host(start_url) {
        Some(h) => h,
        None => Seq::empty(),
    }
}

/// The address reported for a crawled site: the ranker's choice among the
/// addresses found, or the empty string where it chooses none.
pub fn email_for_site(start_url: &str, emails: &Vec<String>) -> (r: String)
    ensures
        r@.len() == 0 ==> is_choice(None, views(emails@), site_host(start_url@)),
        r@.len() > 0 ==> is_choice(Some(r@), views(emails@), site_host(start_url@)),
{
    let host = match crate::site::site_host_text(start_url) {
        Some(h) => h,
        None => String::new(),
    };
    match choose_best_email(emails, host.as_str()) {
        Some(e) => {
            proof {
                assert(e@.len() > 0) by {
                    if e@.len() == 0 {
                        assert(crate::email::count_at(e@) == 0);
                    }
                }
            }
            e
        },
        None => String::new(),
    }
}

/// The position of the first result tagged with row `i`, if any.
pub open spec fn result_for(results: Seq<(usize, String, String)>, i: int) -> Option<int> {
    if exists|j: int| 0 <= j < results.len() && results[j].0 == i {
        Some(
            choose|j: int|
                0 <= j < results.len() && results[j].0 == i && forall|k: int|
                    0 <= k < j ==> #[trigger] results[k].0 != i,
        )
    } else {
        None
    }
}

/// Some result is tagged with row `i`.
pub open spec fn has_result(results: Seq<(usize, String, String)>, i: int) -> bool {
    exists|j: int| 0 <= j < results.len() && #[trigger] results[j].0 == i
}

/// A result tagged `i` at `j` means a first one at or before `j`.
proof fn lemma_first_result(results: Seq<(usize, String, String)>, i: int, j: int)
    requires
        0 <= j < results.len(),
        results[j].0 == i,
    ensures
        result_for(results, i) matches Some(m) && 0 <= m <= j && results[m].0 == i && forall|k: int|
            0 <= k < m ==> #[trigger] results[k].0 != i,
    decreases j,
{
    if exists|k: int| 0 <= k < j && #[trigger] results[k].0 == i {
        let k = choose|k: int| 0 <= k < j && #[trigger] results[k].0 == i;
        lemma_first_result(results, i, k);
    } else {
        assert(exists|m: int|
            0 <= m < results.len() && results[m].0 == i && forall|k: int| 0 <= k < m ==> #[trigger] results[k].0 != i);
        let m = result_for(results, i)->0;
        if m > j {
            assert(results[j].0 != i);
        }
    }
}

/// The `(identifier, email)` of the first result tagged with row `i`.
pub open spec fn row_answer(results: Seq<(usize, String, String)>, i: int) -> (Seq<char>, Seq<char>) {
    let j = result_for(results, i)->0;
    (results[j].1@, results[j].2@)
}

/// Every row index below the number of results has a result.
pub open spec fn covers_rows(results: Seq<(usize, String, String)>) -> bool {
    forall|i: int| 0 <= i < results.len() ==> #[trigger] has_result(results, i)
}

/// The first position holding a result tagged `i`.
fn find_row(results: &Vec<(usize, String, String)>, i: usize) -> (r: Option<usize>)
    ensures
        r matches Some(j) ==> j < results@.len() && results@[j as int].0 == i && forall|k: int|
            0 <= k < j ==> #[trigger] results@[k].0 != i,
        r is None ==> forall|k: int| 0 <= k < results@.len() ==> #[trigger] results@[k].0 != i,
{
    let mut j: usize = 0;
    while j < results.len()
        invariant
            j <= results@.len(),
            forall|k: int| 0 <= k < j ==> #[trigger] results@[k].0 != i,
        decreases results.len() - j,
    {
        if results[j].0 == i {
            return Some(j);
        }
        j = j + 1;
    }
    None
}

/// Puts tagged results back in row order: the `(identifier, email)` of
/// row `i` at position `i`. `None` where some row below the number of
/// results has no result.
pub fn order_results(results: &Vec<(usize, String, String)>) -> (r: Option<Vec<(String, String)>>)
    ensures
        r is Some <==> covers_rows(results@),
        r matches Some(v) ==> v@.len() == results@.len() && forall|i: int|
            0 <= i < v@.len() ==> ((#[trigger] v@[i]).0@, v@[i].1@) == row_answer(results@, i),
{
    let n = results.len();
    let mut out: Vec<(String, String)> = Vec::new();
    let mut i: usize = 0;
    while i < n
        invariant
            n == results@.len(),
            i <= n,
            out@.len() == i,
            forall|k: int| 0 <= k < i ==> #[trigger] has_result(results@, k),
            forall|k: int| 0 <= k < i ==> ((#[trigger] out@[k]).0@, out@[k].1@) == row_answer(results@, k),
        decreases n - i,
    {
        match find_row(results, i) {
            None => {
                assert(!covers_rows(results@)) by {
                    if covers_rows(results@) {
                        assert(has_result(results@, i as int));
                        let j = choose|j: int| 0 <= j < n && #[trigger] results@[j].0 == i as int;
                        assert(results@[j].0 != i);
                    }
                }
                return None;
            },
            Some(j) => {
                proof {
                    assert(results@[j as int].0 == i);
                    assert(has_result(results@, i as int));
                    lemma_first_result(results@, i as int, j as int);
                    let c = result_for(results@, i as int)->0;
                    if c < j {
                        assert(results@[c].0 != i);
                    }
                    if j < c {
                        assert(results@[j as int].0 != i);
                    }
                }
                let ghost before = out@;
                out.push((results[j].1.clone(), results[j].2.clone()));
                assert(forall|k: int| 0 <= k < i ==> out@[k] == before[k]);
            },
        }
        i = i + 1;
    }
    assert(covers_rows(results@)) by {
        assert forall|k: int| 0 <= k < n implies #[trigger] has_result(results@, k) by {}
    }
    Some(out)
}

/// Output keeps row order: when each of `n` rows yields its
/// `(identifier, email)` and the tagged results arrive in any order
/// (`arrival[j]` is the row of the `j`-th result, every row arriving once),
/// the ordered output is the rows' own sequence.
pub proof fn lemma_row_order_kept(
    results: Seq<(usize, String, String)>,
    ids: Seq<Seq<char>>,
    emails: Seq<Seq<char>>,
    arrival: Seq<int>,
)
    requires
        ids.len() == results.len(),
        emails.len() == results.len(),
        arrival.len() == results.len(),
        forall|j: int| 0 <= j < results.len() ==> 0 <= #[trigger] arrival[j] < results.len(),
        forall|i: int| 0 <= i < results.len() ==> #[trigger] arrival.contains(i),
        forall|j: int|
            0 <= j < results.len() ==> {
                &&& (#[trigger] results[j]).0 == arrival[j]
                &&& results[j].1@ == ids[arrival[j]]
                &&& results[j].2@ == emails[arrival[j]]
            },
    ensures
        covers_rows(results),
        forall|i: int|
            0 <= i < results.len() ==> #[trigger] result_for(results, i) is Some && row_answer(results, i) == (
                ids[i],
                emails[i],
            ),
{
    assert forall|i: int| 0 <= i < results.len() implies #[trigger] has_result(results, i) by {
        assert(arrival.contains(i));
        let j = choose|j: int| 0 <= j < arrival.len() && #[trigger] arrival[j] == i;
        assert(results[j].0 == i);
    }
    assert forall|i: int| 0 <= i < results.len() implies #[trigger] result_for(results, i) is Some
        && row_answer(results, i) == (ids[i], emails[i]) by {
        assert(has_result(results, i));
        let w = choose|w: int| 0 <= w < results.len() && #[trigger] results[w].0 == i;
        lemma_first_result(results, i, w);
        let j = result_for(results, i)->0;
        assert(results[j].0 == arrival[j]);
    }
}

} // verus!
