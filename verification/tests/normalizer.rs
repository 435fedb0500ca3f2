use linkz::urls::{resolve, validate_url};

#[test]
fn validate_accepts_absolute_http_url() {
    assert!(validate_url("http://example.com"));
    assert!(validate_url("https://example.com/a/b?q=1#f"));
}

#[test]
fn validate_rejects_relative_and_hostless() {
    assert!(!validate_url("/about"));
    assert!(!validate_url("not a url"));
    assert!(!validate_url("//example.com/x"));
    // parses with a scheme but has no host
    assert!(!validate_url("mailto:test@example.com"));
}

#[test]
fn resolve_keeps_absolute_urls_unchanged() {
    let r = resolve("http://example.com", "http://example.com/about").unwrap();
    assert_eq!(r, "http://example.com/about");
    let r = resolve("http://example.com", "https://other.net/x?y=1").unwrap();
    assert_eq!(r, "https://other.net/x?y=1");
}

#[test]
fn resolve_joins_relative_hrefs_against_base() {
    let r = resolve("http://example.com", "/about").unwrap();
    assert_eq!(r, "http://example.com/about");
    let r = resolve("http://example.com/a/b", "c").unwrap();
    assert_eq!(r, "http://example.com/a/c");
}

#[test]
fn resolved_relative_hrefs_keep_scheme_and_host_of_base() {
    for href in ["/x", "y", "?q=2", "#frag", "../up"] {
        let r = resolve("https://example.com/a/b", href).unwrap();
        assert!(
            r.starts_with("https://example.com/"),
            "{} resolved to {}",
            href,
            r
        );
    }
}

#[test]
fn resolve_reports_unresolvable_href_with_cause() {
    let e = resolve("http://example.com", "http://[").unwrap_err();
    assert_eq!(e.href, "http://[");
    assert!(!e.message.is_empty());
}

#[test]
fn resolve_fails_when_base_is_invalid_and_href_relative() {
    let e = resolve("not a url", "/about").unwrap_err();
    assert_eq!(e.href, "/about");
}
