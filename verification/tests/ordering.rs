use linkz::order::{sort_dedup, str_lt};

#[test]
fn string_order_is_lexicographic() {
    assert!(str_lt("abc", "abd"));
    assert!(str_lt("ab", "abc"));
    assert!(!str_lt("abc", "abc"));
    assert!(!str_lt("abd", "abc"));
    assert!(str_lt("", "a"));
    assert!(!str_lt("a", ""));
    assert!(str_lt("Z", "a"));
}

#[test]
fn sort_dedup_orders_and_removes_exact_duplicates() {
    let input = vec![
        "pear".to_string(),
        "apple".to_string(),
        "pear".to_string(),
        "banana".to_string(),
        "apple".to_string(),
    ];
    let out = sort_dedup(&input);
    assert_eq!(out, vec!["apple".to_string(), "banana".to_string(), "pear".to_string()]);
}

#[test]
fn sort_dedup_keeps_near_duplicates_distinct() {
    let input = vec!["http://a/".to_string(), "http://a".to_string()];
    let out = sort_dedup(&input);
    assert_eq!(out, vec!["http://a".to_string(), "http://a/".to_string()]);
}

#[test]
fn sort_dedup_of_nothing_is_nothing() {
    let out = sort_dedup(&Vec::new());
    assert!(out.is_empty());
}
