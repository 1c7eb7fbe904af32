use std::cell::RefCell;
use std::collections::HashMap;

use email_finder::crawl::{crawl_site, CrawlConfig, Crawler};
use email_finder::site::{host_variants, normalize_start_url, url_in_scope, url_key};

fn site(pages: &[(&str, &str)]) -> HashMap<String, String> {
    pages.iter().map(|(u, b)| (u.to_string(), b.to_string())).collect()
}

#[test]
fn fragment_does_not_change_the_key() {
    assert_eq!(url_key("https://acme.com/a#one"), url_key("https://acme.com/a#two"));
    assert_eq!(url_key("https://acme.com/a#one"), "https://acme.com/a");
    assert_eq!(url_key("https://acme.com/a"), "https://acme.com/a");
}

#[test]
fn start_url_gets_scheme_and_loses_fragment() {
    assert_eq!(normalize_start_url("  acme.com "), Some("https://acme.com/".to_string()));
    assert_eq!(normalize_start_url("http://acme.com/x#top"), Some("http://acme.com/x".to_string()));
    assert_eq!(normalize_start_url("https://"), None);
}

#[test]
fn scope_is_host_and_its_www_spelling() {
    let (root, www) = host_variants("https://www.Acme.com/");
    assert_eq!(root, "acme.com");
    assert_eq!(www, "www.acme.com");
    assert!(url_in_scope("https://ACME.com/x", &root, &www));
    assert!(url_in_scope("https://www.acme.com/y", &root, &www));
    assert!(!url_in_scope("https://blog.acme.com/", &root, &www));
    assert!(!url_in_scope("mailto:a@acme.com", &root, &www));
}

#[test]
fn end_to_end_unions_in_scope_pages_and_skips_off_scope() {
    let pages = site(&[
        (
            "https://acme.com/",
            r#"<a href="/a">A</a><a href="b">B</a><a href="https://other.com/x">X</a>"#,
        ),
        ("https://acme.com/a", "write to sales@acme.com"),
        ("https://acme.com/b", r#"<a href="mailto:Contact@Acme.com">mail</a>"#),
        ("https://other.com/x", "spam@other.com"),
    ]);
    let fetched = RefCell::new(Vec::new());
    let fetch = |u: &str| {
        fetched.borrow_mut().push(u.to_string());
        pages.get(u).cloned()
    };
    let r = crawl_site(&fetch, "https://acme.com/", &CrawlConfig::new(10, 1));
    let mut emails = r.emails.clone();
    emails.sort();
    assert_eq!(emails, vec!["contact@acme.com".to_string(), "sales@acme.com".to_string()]);
    assert!(!fetched.borrow().iter().any(|u| u.contains("other.com")));
    assert_eq!(fetched.borrow().len(), 3);
}

#[test]
fn cyclic_site_respects_page_budget() {
    let pages = site(&[
        ("https://acme.com/", r#"<a href="/1">1</a><a href="/2">2</a>"#),
        ("https://acme.com/1", r#"<a href="/">0</a><a href="/2">2</a><a href="/3">3</a>"#),
        ("https://acme.com/2", r#"<a href="/1">1</a><a href="/3#x">3</a>"#),
        ("https://acme.com/3", r#"<a href="/">0</a> c@acme.com"#),
    ]);
    let fetched = RefCell::new(Vec::new());
    let fetch = |u: &str| {
        fetched.borrow_mut().push(u.to_string());
        pages.get(u).cloned()
    };
    crawl_site(&fetch, "https://acme.com/", &CrawlConfig::new(3, 10));
    assert_eq!(fetched.borrow().len(), 3);
    fetched.borrow_mut().clear();
    crawl_site(&fetch, "https://acme.com/", &CrawlConfig::new(50, 10));
    let mut seen = fetched.borrow().clone();
    assert_eq!(seen.len(), 4);
    seen.sort();
    seen.dedup();
    assert_eq!(seen.len(), 4);
}

#[test]
fn page_at_max_depth_is_scanned_but_not_followed() {
    let pages = site(&[("https://acme.com/", r#"info@acme.com <a href="/next">n</a>"#)]);
    let fetched = RefCell::new(0usize);
    let fetch = |u: &str| {
        *fetched.borrow_mut() += 1;
        pages.get(u).cloned()
    };
    let r = crawl_site(&fetch, "https://acme.com/", &CrawlConfig::new(10, 0));
    assert_eq!(r.emails, vec!["info@acme.com".to_string()]);
    assert_eq!(*fetched.borrow(), 1);
}

#[test]
fn zero_page_budget_fetches_nothing() {
    let fetch = |_: &str| -> Option<String> { panic!("no fetch expected") };
    let r = crawl_site(&fetch, "https://acme.com/", &CrawlConfig::new(0, 3));
    assert!(r.emails.is_empty());
}

#[test]
fn failed_start_fetch_gives_no_emails() {
    let fetch = |_: &str| -> Option<String> { None };
    let r = crawl_site(&fetch, "https://acme.com/", &CrawlConfig::new(5, 3));
    assert!(r.emails.is_empty());
}

#[test]
fn crawler_steps_hand_out_pages_in_order() {
    let mut c = Crawler::new("https://acme.com/#top", &CrawlConfig::new(2, 1));
    let (u, d) = c.next_fetch().unwrap();
    assert_eq!((u.as_str(), d), ("https://acme.com/", 0));
    assert!(c.next_fetch().is_none());
    c.record_page(&u, d, Some(r#"<a href="/a">a</a><a href="/a#x">a</a><a href="/b">b</a>"#.to_string()));
    let (u2, d2) = c.next_fetch().unwrap();
    assert_eq!((u2.as_str(), d2), ("https://acme.com/a", 1));
    assert!(c.is_done());
    assert!(c.next_fetch().is_none());
}
