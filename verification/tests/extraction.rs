use linkz::extract::{default_exclusions, extract_links, has_substring, is_excluded};

#[test]
fn exclusion_list_holds_the_two_fixed_entries() {
    let ex = default_exclusions();
    assert_eq!(ex, vec!["javascript:void(0)".to_string(), "mailto:".to_string()]);
}

#[test]
fn substring_search_finds_patterns() {
    assert!(has_substring("abcdef", "cde"));
    assert!(has_substring("abcdef", ""));
    assert!(has_substring("abcdef", "abcdef"));
    assert!(!has_substring("abcdef", "cdf"));
    assert!(!has_substring("ab", "abc"));
}

#[test]
fn exclusion_is_case_sensitive_substring_match() {
    assert!(is_excluded("javascript:void(0)"));
    assert!(is_excluded("http://x/?goto=javascript:void(0)"));
    assert!(is_excluded("mailto:test@example.com"));
    assert!(!is_excluded("jAvascript:void(0)"));
    assert!(!is_excluded("http://example.com/mail"));
}

#[test]
fn extraction_scenario_collapses_and_excludes() {
    let body = r#"<html><body>
        <a href="/about">a</a>
        <a href="http://example.com/about">b</a>
        <a href="javascript:void(0)">c</a>
        <a href="mailto:test@example.com">d</a>
    </body></html>"#;
    let (links, errs) = extract_links("http://example.com", body);
    assert_eq!(links, vec!["http://example.com/about".to_string()]);
    assert!(errs.is_empty());
}

#[test]
fn extraction_output_is_sorted_and_deduplicated() {
    let body = r#"<a href="/c">1</a><a href="/a">2</a><a href="/b">3</a><a href="/a">4</a>"#;
    let (links, errs) = extract_links("http://example.com", body);
    assert_eq!(
        links,
        vec![
            "http://example.com/a".to_string(),
            "http://example.com/b".to_string(),
            "http://example.com/c".to_string(),
        ]
    );
    assert!(errs.is_empty());
}

#[test]
fn excluded_links_never_appear_wherever_they_stand() {
    let body = r#"<a href="javascript:void(0)">x</a><a href="/a">1</a>
        <a href="mailto:a@b">y</a><a href="/b">2</a><a href="javascript:void(0)">z</a>"#;
    let (links, _) = extract_links("http://example.com", body);
    assert_eq!(
        links,
        vec!["http://example.com/a".to_string(), "http://example.com/b".to_string()]
    );
}

#[test]
fn unresolvable_href_is_dropped_and_others_kept() {
    let body = r#"<a href="http://[">bad</a><a href="/ok">good</a>"#;
    let (links, errs) = extract_links("http://example.com", body);
    assert_eq!(links, vec!["http://example.com/ok".to_string()]);
    assert_eq!(errs.len(), 1);
    assert_eq!(errs[0].href, "http://[");
    assert!(!errs[0].message.is_empty());
}

#[test]
fn document_without_anchors_yields_nothing() {
    let (links, errs) = extract_links("http://example.com", "<p>no links here</p>");
    assert!(links.is_empty());
    assert!(errs.is_empty());
}
