use email_finder::email::{
    choose_best_email, extract_emails_from_html, normalize_email, rank_local_part, validate_email,
    EmailPreference,
};

#[test]
fn email_extractor_ranks_contact_info_sales() {
    assert!(rank_local_part("contact") < rank_local_part("info"));
    assert!(rank_local_part("info") < rank_local_part("sales"));
    assert!(rank_local_part("sales") < rank_local_part("zach"));
}

#[test]
fn email_tests_ranks_contact_info_sales() {
    assert!(rank_local_part("contact") < rank_local_part("info"));
    assert!(rank_local_part("info") < rank_local_part("sales"));
    assert!(rank_local_part("sales") < rank_local_part("zach"));
}

#[test]
fn rank_ignores_case_and_keeps_other_name_lowered() {
    assert_eq!(rank_local_part("CONTACT"), EmailPreference::Contact);
    assert_eq!(rank_local_part("Info"), EmailPreference::Info);
    assert_eq!(rank_local_part("Bob"), EmailPreference::Other("bob".to_string()));
}

#[test]
fn normalize_trims_and_lowers() {
    assert_eq!(normalize_email("  Foo@Bar.COM \n"), "foo@bar.com");
}

#[test]
fn validate_accepts_and_rejects() {
    assert!(validate_email("foo@bar.com"));
    assert!(!validate_email("foo@@bar.com"));
    assert!(!validate_email("no-at-sign"));
}

fn sorted(mut v: Vec<String>) -> Vec<String> {
    v.sort();
    v
}

#[test]
fn extract_mailto_is_normalized() {
    let html = r#"<a href="mailto:Foo@Bar.COM">write</a>"#;
    let found = extract_emails_from_html(html);
    assert!(found.contains(&"foo@bar.com".to_string()));
    assert_eq!(found.len(), 1);
}

#[test]
fn extract_is_deterministic_and_idempotent() {
    let html = "Reach us: Sales@Acme.com or info@acme.com, mailto:info@acme.com";
    let a = sorted(extract_emails_from_html(html));
    let b = sorted(extract_emails_from_html(html));
    assert_eq!(a, b);
    assert_eq!(a, vec!["info@acme.com".to_string(), "sales@acme.com".to_string()]);
    for e in &a {
        assert_eq!(&normalize_email(e), e);
    }
}

#[test]
fn extract_finds_nothing_in_plain_text() {
    assert!(extract_emails_from_html("no addresses here").is_empty());
    assert!(extract_emails_from_html("").is_empty());
}

fn strings(v: &[&str]) -> Vec<String> {
    v.iter().map(|s| s.to_string()).collect()
}

#[test]
fn ranker_contact_beats_sales_on_same_domain() {
    let c = strings(&["sales@acme.com", "contact@acme.com", "info@other.com"]);
    assert_eq!(choose_best_email(&c, "acme.com"), Some("contact@acme.com".to_string()));
}

#[test]
fn ranker_same_domain_beats_better_class() {
    let c = strings(&["contact@other.com", "zzz@acme.com"]);
    assert_eq!(choose_best_email(&c, "acme.com"), Some("zzz@acme.com".to_string()));
}

#[test]
fn ranker_lexicographic_tiebreak() {
    let c = strings(&["bob@acme.com", "amy@acme.com"]);
    assert_eq!(choose_best_email(&c, "acme.com"), Some("amy@acme.com".to_string()));
}

#[test]
fn ranker_www_prefix_and_case_are_the_same_site() {
    let c = strings(&["info@other.com", "sales@ACME.com"]);
    assert_eq!(choose_best_email(&c, "www.acme.com"), Some("sales@ACME.com".to_string()));
}

#[test]
fn ranker_falls_back_to_other_domain() {
    let c = strings(&["sales@other.com", "info@else.org"]);
    assert_eq!(choose_best_email(&c, "acme.com"), Some("info@else.org".to_string()));
}

#[test]
fn ranker_skips_malformed_and_empty() {
    let c = strings(&["a@b@acme.com", "plain"]);
    assert_eq!(choose_best_email(&c, "acme.com"), None);
    assert_eq!(choose_best_email(&Vec::new(), "acme.com"), None);
}
