use linear_hashtable_example::HashMap;

#[test]
fn empty_table_has_no_allocation() {
    let map: HashMap<i32> = HashMap::new();
    assert_eq!(map.len(), 0);
    assert_eq!(map.capacity(), 0);
    assert!(map.is_empty());
    assert!(map.get("anything").is_none());
}

#[test]
fn default_is_empty() {
    let map: HashMap<i32> = Default::default();
    assert!(map.is_empty());
    assert_eq!(map.capacity(), 0);
}

#[test]
fn round_trip_single_key() {
    let mut map = HashMap::new();
    assert_eq!(map.insert("alpha".to_string(), 7), None);
    assert_eq!(map.get("alpha"), Some(&7));
    assert_eq!(map.len(), 1);
    assert!(!map.is_empty());
}

#[test]
fn inserted_pairs_survive_other_operations() {
    let mut map = HashMap::new();
    map.insert("keep".to_string(), 42);
    map.insert("other".to_string(), 1);
    map.remove("other");
    map.insert("third".to_string(), 3);
    assert_eq!(map.get("keep"), Some(&42));
    assert_eq!(map.get("third"), Some(&3));
    assert_eq!(map.get("other"), None);
}

#[test]
fn overwrite_returns_previous_value() {
    let mut map = HashMap::new();
    assert_eq!(map.insert("k".to_string(), 1), None);
    let len_before = map.len();
    assert_eq!(map.insert("k".to_string(), 2), Some(1));
    assert_eq!(map.get("k"), Some(&2));
    assert_eq!(map.len(), len_before);
}

#[test]
fn tombstone_masks_removed_key() {
    let mut map = HashMap::new();
    map.insert("a".to_string(), 1);
    map.insert("b".to_string(), 2);
    map.insert("c".to_string(), 3);
    assert_eq!(map.remove("a"), Some(1));
    assert_eq!(map.get("a"), None);
    assert_eq!(map.get("b"), Some(&2));
    assert_eq!(map.get("c"), Some(&3));
    // re-inserting the removed key reclaims its tombstone: the load check
    // passes, so the table does not grow
    let cap = map.capacity();
    assert_eq!(map.insert("a".to_string(), 9), None);
    assert_eq!(map.get("a"), Some(&9));
    assert_eq!(map.capacity(), cap);
}

#[test]
fn remove_absent_key_changes_nothing() {
    let mut map = HashMap::new();
    map.insert("x".to_string(), 1);
    map.insert("y".to_string(), 2);
    let len = map.len();
    let cap = map.capacity();
    assert_eq!(map.remove("zebra"), None);
    assert_eq!(map.len(), len);
    assert_eq!(map.capacity(), cap);
    assert_eq!(map.get("x"), Some(&1));
    assert_eq!(map.get("y"), Some(&2));
}

#[test]
fn remove_on_empty_table_returns_none() {
    let mut map: HashMap<u8> = HashMap::new();
    assert_eq!(map.remove("ghost"), None);
    assert_eq!(map.len(), 0);
    assert_eq!(map.capacity(), 0);
}

#[test]
fn removing_all_keys_deallocates() {
    let mut map = HashMap::new();
    for i in 0..10i32 {
        map.insert(format!("key{}", i), i);
    }
    assert_eq!(map.len(), 10);
    for i in 0..10i32 {
        assert_eq!(map.remove(&format!("key{}", i)), Some(i));
    }
    assert_eq!(map.len(), 0);
    assert_eq!(map.capacity(), 0);
    assert!(map.is_empty());
}

#[test]
fn growth_preserves_every_key() {
    let mut map = HashMap::new();
    for i in 0..100i32 {
        map.insert(format!("key-{}", i), i);
        for j in 0..=i {
            assert_eq!(map.get(&format!("key-{}", j)), Some(&j));
        }
    }
    assert_eq!(map.len(), 100);
    // an allocated table is always at least half free
    assert!(map.capacity() >= 200);
}

#[test]
fn capacity_stays_proportional_to_len() {
    let mut map = HashMap::new();
    for round in 0..3i32 {
        for i in 0..50i32 {
            map.insert(format!("r{}-{}", round, i), i);
        }
        for i in 0..50i32 {
            map.remove(&format!("r{}-{}", round, i));
            let len = map.len();
            let cap = map.capacity();
            assert!(len <= cap);
            assert!(cap <= 20 * len + 20);
        }
        assert!(map.is_empty());
    }
    assert_eq!(map.capacity(), 0);
}

#[test]
fn scenario_fruit_basket() {
    let mut map = HashMap::new();
    map.insert("Apple".to_string(), 0);
    map.insert("Banana".to_string(), 1);
    map.insert("Chocolate".to_string(), 2);
    assert_eq!(map.len(), 3);
    assert_eq!(map.get("Banana"), Some(&1));
    assert_eq!(map.remove("Banana"), Some(1));
    assert_eq!(map.get("Banana"), None);
    assert_eq!(map.get("Apple"), Some(&0));
    assert_eq!(map.get("Chocolate"), Some(&2));
    assert_eq!(map.insert("Dingo".to_string(), 3), None);
    assert_eq!(map.get("Apple"), Some(&0));
    assert_eq!(map.get("Chocolate"), Some(&2));
    assert_eq!(map.get("Dingo"), Some(&3));
}

#[test]
fn distinguishes_unicode_keys() {
    let mut map = HashMap::new();
    map.insert("caf\u{e9}".to_string(), 1);
    map.insert("cafe".to_string(), 2);
    assert_eq!(map.get("caf\u{e9}"), Some(&1));
    assert_eq!(map.get("cafe"), Some(&2));
    assert_eq!(map.len(), 2);
}

#[test]
fn overwrite_at_growth_boundary_uses_speculative_check() {
    // the growth check runs before the probe and counts the incoming pair,
    // so an overwrite at the boundary still doubles the capacity
    let mut map = HashMap::new();
    map.insert("a".to_string(), 1);
    map.insert("b".to_string(), 2);
    let cap = map.capacity();
    assert_eq!(cap, 4);
    assert_eq!(map.insert("b".to_string(), 9), Some(2));
    assert_eq!(map.capacity(), 2 * cap);
    assert_eq!(map.len(), 2);
    assert_eq!(map.get("b"), Some(&9));
}
