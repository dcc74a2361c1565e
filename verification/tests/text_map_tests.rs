use hybrid_shared_core::text_map::TextMap;
use std::collections::BTreeMap;

#[test]
fn a_map_keeps_its_keys_in_order() {
    let mut map = TextMap::new();
    let mut other = BTreeMap::new();
    for (n, key) in ["b", "", "契約", "a", "b", "aa", "Z", "a"].iter().enumerate() {
        map.insert(key.to_string(), n);
        other.insert(key.to_string(), n);
    }
    assert_eq!(map.len(), other.len());
    for (i, (key, value)) in other.iter().enumerate() {
        assert_eq!(map.key_at(i), key);
        assert_eq!(map.value_at(i), value);
        assert_eq!(map.get(key), Some(value));
        assert!(map.contains_key(key));
    }
    assert_eq!(map.get("missing"), None);
    assert!(!map.contains_key("missing"));
}

#[test]
fn an_empty_map_holds_nothing() {
    let map: TextMap<u8> = TextMap::new();
    assert!(map.is_empty());
    assert_eq!(map.len(), 0);
    assert_eq!(map.get(""), None);
}
