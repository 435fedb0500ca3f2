use linkz::monitor::Monitor;
use linkz::store::{contains_string, diff};

fn page(hrefs: &[&str]) -> String {
    let mut body = String::from("<html><body>");
    for h in hrefs {
        body.push_str(&format!("<a href=\"{}\">link</a>", h));
    }
    body.push_str("</body></html>");
    body
}

#[test]
fn differ_reports_only_unseen_links_in_fresh_order() {
    let seen = vec!["http://example.com/a".to_string()];
    let fresh = vec![
        "http://example.com/b".to_string(),
        "http://example.com/a".to_string(),
        "http://example.com/c".to_string(),
    ];
    let d = diff(&seen, &fresh);
    assert_eq!(d, vec!["http://example.com/b".to_string(), "http://example.com/c".to_string()]);
}

#[test]
fn store_membership_is_by_exact_string() {
    let seen = vec!["http://example.com/a".to_string()];
    assert!(contains_string(&seen, &"http://example.com/a".to_string()));
    assert!(!contains_string(&seen, &"http://example.com/a/".to_string()));
}

#[test]
fn first_tick_reports_all_second_tick_reports_only_new() {
    let mut m = Monitor::new("http://example.com".to_string());

    let r1 = m.tick(Ok(page(&["/a", "/b"])));
    assert_eq!(
        r1.new_links,
        vec!["http://example.com/a".to_string(), "http://example.com/b".to_string()]
    );
    assert!(r1.fetch_error.is_none());
    assert!(r1.link_errors.is_empty());
    assert_eq!(m.seen, r1.new_links);

    let r2 = m.tick(Ok(page(&["/a", "/c"])));
    assert_eq!(r2.new_links, vec!["http://example.com/c".to_string()]);
    assert_eq!(
        m.seen,
        vec![
            "http://example.com/a".to_string(),
            "http://example.com/b".to_string(),
            "http://example.com/c".to_string(),
        ]
    );
}

#[test]
fn identical_content_twice_yields_empty_second_diff() {
    let mut m = Monitor::new("http://example.com".to_string());
    let body = page(&["/one", "/two"]);
    let r1 = m.tick(Ok(body.clone()));
    assert_eq!(r1.new_links.len(), 2);
    let r2 = m.tick(Ok(body));
    assert!(r2.new_links.is_empty());
    assert_eq!(m.seen.len(), 2);
}

#[test]
fn failed_fetch_reports_one_error_and_leaves_store_unchanged() {
    let mut m = Monitor::new("http://example.com".to_string());
    let r1 = m.tick(Ok(page(&["/a"])));
    assert_eq!(r1.new_links.len(), 1);

    let r2 = m.tick(Err("connection refused".to_string()));
    assert!(r2.new_links.is_empty());
    assert!(r2.link_errors.is_empty());
    assert_eq!(r2.fetch_error.as_deref(), Some("connection refused"));
    assert_eq!(m.seen, vec!["http://example.com/a".to_string()]);
}

#[test]
fn store_accumulates_union_without_duplicates() {
    let mut m = Monitor::new("http://example.com".to_string());
    m.tick(Ok(page(&["/a", "/b"])));
    m.tick(Ok(page(&["/b", "/c"])));
    m.tick(Ok(page(&["/c", "/a", "/d"])));
    let mut sorted = m.seen.clone();
    sorted.sort();
    assert_eq!(
        sorted,
        vec![
            "http://example.com/a".to_string(),
            "http://example.com/b".to_string(),
            "http://example.com/c".to_string(),
            "http://example.com/d".to_string(),
        ]
    );
    assert_eq!(m.seen.len(), 4);
}

#[test]
fn per_link_errors_are_reported_on_the_tick() {
    let mut m = Monitor::new("http://example.com".to_string());
    let r = m.tick(Ok(page(&["http://[", "/fine"])));
    assert_eq!(r.new_links, vec!["http://example.com/fine".to_string()]);
    assert_eq!(r.link_errors.len(), 1);
    assert_eq!(r.link_errors[0].href, "http://[");
}
