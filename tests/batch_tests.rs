use email_finder::batch::{email_for_site, order_results};
use email_finder::sheets::{detect_website_column, export_url, extract_gid, extract_spreadsheet_id, rows_from_csv};

#[test]
fn results_return_to_row_order() {
    let results = vec![
        (2usize, "c".to_string(), "".to_string()),
        (0usize, "a".to_string(), "x@a.com".to_string()),
        (1usize, "b".to_string(), "y@b.com".to_string()),
    ];
    let ordered = order_results(&results).unwrap();
    assert_eq!(
        ordered,
        vec![
            ("a".to_string(), "x@a.com".to_string()),
            ("b".to_string(), "y@b.com".to_string()),
            ("c".to_string(), "".to_string()),
        ]
    );
}

#[test]
fn missing_row_index_is_refused() {
    let results = vec![(0usize, "a".to_string(), String::new()), (0usize, "b".to_string(), String::new())];
    assert!(order_results(&results).is_none());
    assert_eq!(order_results(&Vec::new()), Some(Vec::new()));
}

#[test]
fn site_email_uses_start_host() {
    let emails = vec!["contact@other.com".to_string(), "zzz@acme.com".to_string()];
    assert_eq!(email_for_site("https://www.acme.com/", &emails), "zzz@acme.com");
    assert_eq!(email_for_site("https://acme.com/", &Vec::new()), "");
}

#[test]
fn website_column_is_detected() {
    let h = vec!["Unique_ID".to_string(), "Company".to_string(), "Home Page".to_string()];
    assert_eq!(detect_website_column(&h), Some(2));
    let h = vec!["id".to_string(), "name".to_string()];
    assert_eq!(detect_website_column(&h), None);
}

#[test]
fn sheet_urls() {
    let u = "https://docs.google.com/spreadsheets/d/AbC-12_x/edit#gid=42";
    assert_eq!(extract_spreadsheet_id(u), Some("AbC-12_x".to_string()));
    assert_eq!(extract_gid(u), Some("42".to_string()));
    assert_eq!(
        export_url(u),
        Some("https://docs.google.com/spreadsheets/d/AbC-12_x/gviz/tq?tqx=out:csv&gid=42".to_string())
    );
    assert_eq!(export_url("https://example.com/"), None);
}

#[test]
fn rows_from_csv_skip_blank_ids_and_websites() {
    let data = b"Unique_ID,Name,Website\n1,Acme,acme.com\n,Blank,x.com\n3,NoSite,  \n";
    let rows = rows_from_csv(data).unwrap();
    assert_eq!(rows.len(), 2);
    assert_eq!(rows[0].unique_id, "1");
    assert_eq!(rows[0].website, Some("acme.com".to_string()));
    assert_eq!(rows[1].unique_id, "3");
    assert_eq!(rows[1].website, None);
}
