use crud_demo_backend::id::Id;
use crud_demo_backend::ordered_map::OrderedMap;

fn listing(store: &OrderedMap) -> Vec<(String, String)> {
    store
        .iter()
        .into_iter()
        .map(|(key, value)| (key.to_string(), value.clone()))
        .collect()
}

fn pair(key: &str, value: &str) -> (String, String) {
    (key.to_string(), value.to_string())
}

fn key(text: &str) -> Id {
    Id::from(text.to_string())
}

#[test]
fn new_store_is_empty() {
    let store = OrderedMap::new();
    assert!(store.iter().is_empty());
    assert_eq!(store.get(&key("a")), None);
}

#[test]
fn default_store_is_empty() {
    let store = OrderedMap::default();
    assert!(store.iter().is_empty());
    assert_eq!(store.get(&key("a")), None);
}

#[test]
fn insert_then_get() {
    let mut store = OrderedMap::new();
    store.insert(key("a"), "1".to_string());
    store.insert(key("b"), "2".to_string());
    assert_eq!(store.get(&key("a")), Some(&"1".to_string()));
    assert_eq!(store.get(&key("b")), Some(&"2".to_string()));
    assert_eq!(store.get(&key("c")), None);
    assert_eq!(store.get(&key("")), None);
}

#[test]
fn iter_follows_insertion_order() {
    let mut store = OrderedMap::new();
    store.insert(key("zebra"), "1".to_string());
    store.insert(key("apple"), "2".to_string());
    store.insert(key("mango"), "3".to_string());
    assert_eq!(
        listing(&store),
        vec![pair("zebra", "1"), pair("apple", "2"), pair("mango", "3")]
    );
}

#[test]
fn insert_of_a_live_key_replaces_the_value_in_place() {
    let mut store = OrderedMap::new();
    store.insert(key("a"), "1".to_string());
    store.insert(key("b"), "2".to_string());
    store.insert(key("a"), "3".to_string());
    assert_eq!(store.get(&key("a")), Some(&"3".to_string()));
    assert_eq!(listing(&store), vec![pair("a", "3"), pair("b", "2")]);
}

#[test]
fn remove_drops_the_key_and_its_value() {
    let mut store = OrderedMap::new();
    store.insert(key("a"), "1".to_string());
    store.insert(key("b"), "2".to_string());
    store.insert(key("c"), "3".to_string());
    store.remove(&key("b"));
    assert_eq!(store.get(&key("b")), None);
    assert_eq!(listing(&store), vec![pair("a", "1"), pair("c", "3")]);
    store.remove(&key("a"));
    assert_eq!(listing(&store), vec![pair("c", "3")]);
    store.remove(&key("c"));
    assert!(store.iter().is_empty());
}

#[test]
fn remove_of_an_absent_key_is_a_no_op() {
    let mut store = OrderedMap::new();
    store.remove(&key("a"));
    assert!(store.iter().is_empty());
    store.insert(key("a"), "1".to_string());
    store.remove(&key("b"));
    assert_eq!(listing(&store), vec![pair("a", "1")]);
}

#[test]
fn removed_key_inserted_again_goes_to_the_end() {
    let mut store = OrderedMap::new();
    store.insert(key("a"), "1".to_string());
    store.insert(key("b"), "2".to_string());
    store.remove(&key("a"));
    store.insert(key("a"), "3".to_string());
    assert_eq!(listing(&store), vec![pair("b", "2"), pair("a", "3")]);
}

#[test]
fn empty_key_and_empty_value_are_ordinary() {
    let mut store = OrderedMap::new();
    store.insert(key(""), "".to_string());
    assert_eq!(store.get(&key("")), Some(&"".to_string()));
    assert_eq!(listing(&store), vec![pair("", "")]);
    store.remove(&key(""));
    assert_eq!(store.get(&key("")), None);
}

#[test]
fn from_entries_inserts_in_order() {
    let store = OrderedMap::from_entries(vec![
        (key("b"), "1".to_string()),
        (key("a"), "2".to_string()),
        (key("b"), "3".to_string()),
        (key("c"), "4".to_string()),
    ]);
    assert_eq!(
        listing(&store),
        vec![pair("b", "3"), pair("a", "2"), pair("c", "4")]
    );
    assert!(OrderedMap::from_entries(Vec::new()).iter().is_empty());
}

#[test]
fn many_keys_keep_their_order_through_removals() {
    let mut store = OrderedMap::new();
    for n in 0..200 {
        store.insert(key(&format!("k{n}")), format!("v{n}"));
    }
    for n in (0..200).filter(|n| n % 3 == 0) {
        store.remove(&key(&format!("k{n}")));
    }
    let expected: Vec<(String, String)> = (0..200)
        .filter(|n| n % 3 != 0)
        .map(|n| (format!("k{n}"), format!("v{n}")))
        .collect();
    assert_eq!(listing(&store), expected);
}
