use mega_bench_reporter::strmap::StrMap;

fn listed(map: &StrMap<u32>) -> Vec<(String, u32)> {
    (0..map.len()).map(|i| (map.key_at(i).clone(), *map.value_at(i))).collect()
}

#[test]
fn a_map_lists_its_keys_in_order_whatever_came_first() {
    let mut one = StrMap::new();
    let mut other = StrMap::new();
    for (key, value) in [("b", 2), ("a", 1), ("a/b", 3)] {
        one.insert(key.to_string(), value);
    }
    for (key, value) in [("a/b", 0), ("a", 1), ("b", 2), ("a/b", 3)] {
        other.insert(key.to_string(), value);
    }
    assert_eq!(listed(&one), listed(&other));
    assert_eq!(
        listed(&one),
        vec![("a".to_string(), 1), ("a/b".to_string(), 3), ("b".to_string(), 2)]
    );
}

#[test]
fn a_removed_key_is_gone() {
    let mut map = StrMap::new();
    map.insert("a".to_string(), 1);
    assert_eq!(map.remove("b"), None);
    assert_eq!(map.remove("a"), Some(1));
    assert!(map.is_empty() && map.find("a").is_none() && map.get("a").is_none());
}
