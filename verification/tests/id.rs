use std::collections::HashMap;

use loom_core::id::Id;

#[test]
fn the_same_text_is_the_same_id() {
    assert_eq!(Id::new("redis"), Id::from("redis"));
}

#[test]
fn different_texts_are_different_ids() {
    assert_ne!(Id::new("redis"), Id::new("consul"));
}

#[test]
fn each_generated_id_is_new() {
    let a = Id::generate();
    let b = Id::generate();
    assert_ne!(a, b);
    // The standard length of a UUID v4 in text.
    assert_eq!(a.as_str().len(), 36);
}

#[test]
fn an_id_can_key_a_hash_map() {
    let mut map = HashMap::new();
    map.insert(Id::new("redis"), 6379);
    assert_eq!(map.get(&Id::new("redis")), Some(&6379));
}

#[test]
fn an_id_reads_back_as_its_text() {
    let id = Id::new("c-redis");
    assert_eq!(id.as_str(), "c-redis");
    assert_eq!(id.to_text(), "c-redis".to_string());
    assert!(id.same(&Id::from("c-redis".to_string())));
    assert!(!id.same(&Id::new("c-consul")));
}

#[test]
fn a_generated_id_is_a_hyphenated_version_four_uuid() {
    let id = Id::generate();
    let s: Vec<char> = id.as_str().chars().collect();
    assert_eq!(s.len(), 36);
    for i in [8, 13, 18, 23] {
        assert_eq!(s[i], '-');
    }
    assert_eq!(s[14], '4');
    assert!(matches!(s[19], '8' | '9' | 'a' | 'b'));
}
