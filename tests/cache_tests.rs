use email_finder::cache::{after_download, artifact_names, cache_key, cached_body, is_fresh, pool_size, CacheEntry};

#[test]
fn key_is_hex_sha256_of_the_url() {
    assert_eq!(cache_key("abc"), "ba7816bf8f01cfea414140de5dae2223b00361a396177a9cb410ff61f20015ad");
    assert_eq!(cache_key("https://acme.com/").len(), 64);
    assert_ne!(cache_key("https://acme.com/"), cache_key("https://acme.com/?q=1"));
}

#[test]
fn artifacts_share_the_key() {
    let (b, m) = artifact_names("k1");
    assert_eq!(b, "k1.body");
    assert_eq!(m, "k1.json");
}

#[test]
fn freshness_saturates() {
    assert!(is_fresh(100, 150, 50));
    assert!(!is_fresh(100, 151, 50));
    assert!(is_fresh(200, 100, 0));
}

#[test]
fn cache_round_trip_within_and_after_ttl() {
    let (body, entry) = after_download(Some(200), "hello".to_string(), 1000);
    assert_eq!(body, Some("hello".to_string()));
    let entry = entry.unwrap();
    assert_eq!(entry.saved_at, 1000);
    assert_eq!(cached_body(Some(entry.clone()), 1060, 60), Some("hello".to_string()));
    assert_eq!(cached_body(Some(entry), 1061, 60), None);
    let (body2, entry2) = after_download(Some(204), "fresh".to_string(), 1061);
    assert_eq!(body2, Some("fresh".to_string()));
    let entry2 = entry2.unwrap();
    assert_eq!((entry2.body.as_str(), entry2.saved_at), ("fresh", 1061));
    assert_eq!(cached_body(Some(entry2), 1100, 60), Some("fresh".to_string()));
    assert_eq!(cached_body(None, 1100, 60), None);
}

#[test]
fn failures_are_not_stored() {
    let (b, e) = after_download(Some(404), "nope".to_string(), 5);
    assert!(b.is_none() && e.is_none());
    let (b, e) = after_download(None, String::new(), 5);
    assert!(b.is_none() && e.is_none());
    let _ = CacheEntry { body: String::new(), saved_at: 0 };
}

#[test]
fn pool_has_at_least_one_permit() {
    assert_eq!(pool_size(0), 1);
    assert_eq!(pool_size(4), 4);
}
