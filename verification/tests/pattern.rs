use loom_core::pattern;

#[test]
fn a_trailing_wildcard() {
    assert!(pattern::matches("redis-*", "redis-01"));
    assert!(pattern::matches("redis-*", "redis-"));
    assert!(!pattern::matches("redis-*", "redis"));
    assert!(!pattern::matches("redis-*", "consul-01"));
}

#[test]
fn without_a_wildcard_the_text_must_be_equal() {
    assert!(pattern::matches("redis-01", "redis-01"));
    assert!(!pattern::matches("redis-01", "redis-02"));
    assert!(!pattern::matches("redis", "redis-01"));
}

#[test]
fn a_leading_wildcard() {
    assert!(pattern::matches("*-01", "redis-01"));
    assert!(!pattern::matches("*-01", "redis-02"));
}

#[test]
fn a_wildcard_in_the_middle() {
    assert!(pattern::matches("redis-*-01", "redis-prod-01"));
    assert!(pattern::matches("redis-*-01", "redis--01"));
    assert!(!pattern::matches("redis-*-01", "redis-prod-02"));
}

#[test]
fn a_lone_star_matches_anything() {
    assert!(pattern::matches("*", "redis-01"));
    assert!(pattern::matches("*", ""));
}

#[test]
fn prefix_and_suffix_cannot_share_characters() {
    // "ab" 不該同時當開頭又當結尾去滿足 "ab*ab"
    assert!(!pattern::matches("ab*ab", "ab"));
    assert!(pattern::matches("ab*ab", "abab"));
}

#[test]
fn the_empty_pattern_matches_only_the_empty_text() {
    assert!(pattern::matches("", ""));
    assert!(!pattern::matches("", "redis"));
}
