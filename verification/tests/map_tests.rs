use chainmap::HashMap;

#[test]
fn insert() {
    let mut map = HashMap::new();
    assert_eq!(map.len(), 0);
    assert_eq!(map.is_empty(), true);
    map.insert("key", "value");
    assert_eq!(map.len(), 1);
    assert_eq!(map.get(&"key"), Some(&"value"));
    map.insert("key", "value2");
    assert!(map.contains_key(&"key"));
    assert_eq!(map.get(&"key"), Some(&"value2"));
    assert_eq!(map.remove(&"key"), Some("value2"));
    assert_eq!(map.get(&"key"), None);
    assert_eq!(map.len(), 0);
    assert_eq!(map.is_empty(), true);
}

#[test]
fn iter_test() {
    let mut map = HashMap::new();
    map.insert("foo", 1);
    map.insert("boo", 2);
    map.insert("zoo", 3);
    map.insert("doo", 4);
    let mut it = map.iter();
    loop {
        match it.next() {
            Some((k, v)) => match *k {
                "foo" => assert_eq!(*v, 1),
                "boo" => assert_eq!(*v, 2),
                "zoo" => assert_eq!(*v, 3),
                "doo" => assert_eq!(*v, 4),
                _ => unreachable!(),
            },
            None => break,
        }
    }
}

#[test]
fn len_counts_distinct_keys() {
    let mut map: HashMap<u64, u64> = HashMap::new();
    map.insert(1, 10);
    map.insert(2, 20);
    map.insert(3, 30);
    map.insert(2, 21);
    map.insert(1, 11);
    assert_eq!(map.len(), 3);
}

#[test]
fn insert_then_get() {
    let mut map: HashMap<u64, u64> = HashMap::new();
    map.insert(7, 700);
    assert_eq!(map.get(&7), Some(&700));
}

#[test]
fn reinsert_returns_previous() {
    let mut map: HashMap<u64, &str> = HashMap::new();
    assert_eq!(map.insert(5, "first"), None);
    let before = map.len();
    assert_eq!(map.insert(5, "second"), Some("first"));
    assert_eq!(map.len(), before);
    assert_eq!(map.get(&5), Some(&"second"));
}

#[test]
fn remove_present_and_absent() {
    let mut map: HashMap<u64, u64> = HashMap::new();
    map.insert(1, 100);
    map.insert(2, 200);
    assert_eq!(map.remove(&1), Some(100));
    assert_eq!(map.get(&1), None);
    assert_eq!(map.len(), 1);
    assert_eq!(map.remove(&42), None);
    assert_eq!(map.len(), 1);
}

#[test]
fn remove_twice() {
    let mut map: HashMap<u64, u64> = HashMap::new();
    map.insert(9, 90);
    assert_eq!(map.remove(&9), Some(90));
    assert_eq!(map.remove(&9), None);
}

#[test]
fn get_and_remove_on_fresh_map() {
    let mut map: HashMap<u64, u64> = HashMap::new();
    assert_eq!(map.get(&3), None);
    assert_eq!(map.remove(&3), None);
    assert_eq!(map.len(), 0);
}

#[test]
fn iteration_completeness() {
    let mut map: HashMap<&str, i32> = HashMap::new();
    map.insert("foo", 1);
    map.insert("boo", 2);
    map.insert("zoo", 3);
    map.insert("doo", 4);
    let mut seen: Vec<(String, i32)> = Vec::new();
    let mut it = map.iter();
    while let Some((k, v)) = it.next() {
        seen.push((String::from(*k), *v));
    }
    assert_eq!(seen.len(), 4);
    for expected in [("foo", 1), ("boo", 2), ("zoo", 3), ("doo", 4)] {
        let hits = seen
            .iter()
            .filter(|(k, v)| k == expected.0 && *v == expected.1)
            .count();
        assert_eq!(hits, 1);
    }
}

#[test]
fn resize_keeps_all_entries() {
    let mut map: HashMap<u64, u64> = HashMap::new();
    for k in 0u64..100 {
        map.insert(k, k * 10);
    }
    assert_eq!(map.len(), 100);
    for k in 0u64..100 {
        assert_eq!(map.get(&k), Some(&(k * 10)));
    }
}

#[test]
fn string_keys_round_trip() {
    let mut map: HashMap<&str, u64> = HashMap::new();
    map.insert("alpha", 1);
    map.insert("beta", 2);
    map.insert("", 3);
    assert_eq!(map.get(&"alpha"), Some(&1));
    assert_eq!(map.get(&"beta"), Some(&2));
    assert_eq!(map.get(&""), Some(&3));
    assert_eq!(map.get(&"gamma"), None);
    assert_eq!(map.remove(&"beta"), Some(2));
    assert_eq!(map.get(&"beta"), None);
    assert_eq!(map.len(), 2);
}

#[test]
fn owned_string_keys() {
    let mut map: HashMap<String, u64> = HashMap::new();
    map.insert(String::from("left"), 1);
    map.insert(String::from("right"), 2);
    assert_eq!(map.get(&String::from("left")), Some(&1));
    assert_eq!(map.insert(String::from("left"), 10), Some(1));
    assert_eq!(map.get(&String::from("left")), Some(&10));
    assert_eq!(map.remove(&String::from("right")), Some(2));
    assert_eq!(map.len(), 1);
}

#[test]
fn usize_keys_work() {
    let mut map: HashMap<usize, &str> = HashMap::new();
    map.insert(0, "zero");
    map.insert(1, "one");
    assert_eq!(map.get(&0), Some(&"zero"));
    assert_eq!(map.get(&1), Some(&"one"));
    assert_eq!(map.get(&2), None);
}
