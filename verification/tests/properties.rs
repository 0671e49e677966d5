use chainmap::Entry;
use chainmap::HashKey;
use chainmap::HashMap;
use chainmap::KeyProbe;

#[test]
fn lookup_by_borrowed_probe() {
    let mut map: HashMap<String, i32> = HashMap::new();
    map.insert("foo".to_string(), 42);
    map.insert("var".to_string(), 22);
    assert_eq!(map.get("foo"), Some(&42));
    assert!(map.contains_key("var"));
    assert!(!map.contains_key("bar"));
    assert_eq!(map.remove("foo"), Some(42));
    assert_eq!(map.get("foo"), None);
    assert_eq!(map.len(), 1);
}

#[test]
fn probe_hash_matches_owned_key_hash() {
    for probe in ["", "foo", "var", "dfs", "11", "a longer key with spaces"] {
        let owned: String = probe.to_string();
        assert_eq!(probe.probe_hash(), owned.key_hash());
        assert_eq!(owned.probe_hash(), owned.key_hash());
        assert!(probe.probe_eq(&owned));
    }
    assert!(!"foo".probe_eq(&"bar".to_string()));
    assert!(!"foo".probe_eq(&"fo".to_string()));
}

#[test]
fn count_is_distinct_keys() {
    let mut map: HashMap<String, i32> = HashMap::new();
    map.insert("a".to_string(), 1);
    map.insert("b".to_string(), 2);
    map.insert("a".to_string(), 3);
    map.insert("c".to_string(), 4);
    map.insert("b".to_string(), 5);
    assert_eq!(map.len(), 3);
}

#[test]
fn insert_round_trip() {
    let mut map: HashMap<String, i32> = HashMap::new();
    assert_eq!(map.insert("k".to_string(), 1), None);
    assert_eq!(map.get(&"k".to_string()), Some(&1));
    assert_eq!(map.insert("k".to_string(), 2), Some(1));
    assert_eq!(map.get(&"k".to_string()), Some(&2));
    assert_eq!(map.len(), 1);
}

#[test]
fn remove_present_and_absent() {
    let mut map: HashMap<String, i32> = HashMap::new();
    map.insert("a".to_string(), 1);
    map.insert("b".to_string(), 2);
    assert_eq!(map.remove(&"zzz".to_string()), None);
    assert_eq!(map.len(), 2);
    assert_eq!(map.remove(&"a".to_string()), Some(1));
    assert_eq!(map.len(), 1);
    assert_eq!(map.get(&"a".to_string()), None);
    assert!(!map.contains_key(&"a".to_string()));
    assert!(map.contains_key(&"b".to_string()));
}

#[test]
fn growth_transparency_thousand_keys() {
    let mut map: HashMap<u64, u64> = HashMap::new();
    let mut k: u64 = 0;
    while k < 1000 {
        assert_eq!(map.insert(k, k * 7), None);
        k += 1;
    }
    assert_eq!(map.len(), 1000);
    let mut q: u64 = 0;
    while q < 1000 {
        assert_eq!(map.get(&q), Some(&(q * 7)));
        q += 1;
    }
}

#[test]
fn growth_transparency_string_keys() {
    let mut map: HashMap<String, usize> = HashMap::new();
    for i in 0..200 {
        map.insert(format!("key-{}", i), i);
    }
    assert_eq!(map.len(), 200);
    for i in 0..200 {
        assert_eq!(map.get(&format!("key-{}", i)), Some(&i));
    }
}

#[test]
fn or_insert_with_laziness() {
    let mut map: HashMap<String, i32> = HashMap::new();
    map.insert("present".to_string(), 10);

    let mut calls = 0;
    let e = map.entry("present".to_string());
    let v = e.or_insert_with(&mut map, || {
        calls += 1;
        99
    });
    assert_eq!(*v, 10);
    assert_eq!(calls, 0);

    let e = map.entry("absent".to_string());
    let v = e.or_insert_with(&mut map, || {
        calls += 1;
        99
    });
    assert_eq!(*v, 99);
    assert_eq!(calls, 1);
    assert_eq!(map.get(&"absent".to_string()), Some(&99));
    assert_eq!(map.len(), 2);
}

#[test]
fn entry_or_insert() {
    let mut map: HashMap<String, i32> = HashMap::new();
    let e = map.entry("x".to_string());
    assert!(matches!(e, Entry::Vacant(_)));
    let v = e.or_insert(&mut map, 5);
    *v += 1;
    assert_eq!(map.get(&"x".to_string()), Some(&6));

    let e = map.entry("x".to_string());
    assert!(matches!(e, Entry::Occupied(_)));
    let v = e.or_insert(&mut map, 1000);
    assert_eq!(*v, 6);
    assert_eq!(map.len(), 1);
}

#[test]
fn entry_or_default() {
    let mut map: HashMap<String, i32> = HashMap::new();
    let e = map.entry("zero".to_string());
    let v = e.or_default(&mut map);
    assert_eq!(*v, 0);
    map.insert("one".to_string(), 1);
    let e = map.entry("one".to_string());
    let v = e.or_default(&mut map);
    assert_eq!(*v, 1);
    assert_eq!(map.len(), 2);
}

#[test]
fn borrowing_iteration_is_exact_and_restartable() {
    let mut map: HashMap<String, i32> = HashMap::new();
    map.insert("foo".to_string(), 42);
    map.insert("var".to_string(), 22);
    map.insert("dfs".to_string(), 34);
    map.insert("11".to_string(), 6);

    for _round in 0..2 {
        let mut seen: Vec<(String, i32)> = Vec::new();
        let mut it = map.iter();
        while let Some((k, v)) = it.next() {
            assert!(!seen.iter().any(|(sk, _)| sk == k));
            seen.push((k.clone(), *v));
        }
        assert_eq!(seen.len(), 4);
        for want in [("foo", 42), ("var", 22), ("dfs", 34), ("11", 6)] {
            assert!(seen.iter().any(|(sk, sv)| sk == want.0 && *sv == want.1));
        }
        assert!(it.next().is_none());
    }
}

#[test]
fn consuming_iteration_drains_exactly_once() {
    let mut map: HashMap<String, i32> = HashMap::new();
    map.insert("foo".to_string(), 42);
    map.insert("var".to_string(), 22);
    map.insert("dfs".to_string(), 34);
    map.insert("11".to_string(), 6);

    let mut drain = map.into_iter();
    let mut seen: Vec<(String, i32)> = Vec::new();
    while let Some((k, v)) = drain.next() {
        assert!(!seen.iter().any(|(sk, _)| sk == &k));
        seen.push((k, v));
    }
    assert_eq!(seen.len(), 4);
    for want in [("foo", 42), ("var", 22), ("dfs", 34), ("11", 6)] {
        assert!(seen.iter().any(|(sk, sv)| sk == want.0 && *sv == want.1));
    }
    assert!(drain.next().is_none());
    assert!(drain.next().is_none());
}

#[test]
fn from_pairs_last_duplicate_wins() {
    let pairs = vec![("k".to_string(), 1), ("k".to_string(), 2)];
    let map = HashMap::from_pairs(pairs);
    assert_eq!(map.len(), 1);
    assert_eq!(map.get(&"k".to_string()), Some(&2));
}

#[test]
fn from_pairs_inserts_in_order() {
    let pairs = vec![
        ("a".to_string(), 1),
        ("b".to_string(), 2),
        ("a".to_string(), 3),
    ];
    let map = HashMap::from_pairs(pairs);
    assert_eq!(map.len(), 2);
    assert_eq!(map.get(&"a".to_string()), Some(&3));
    assert_eq!(map.get(&"b".to_string()), Some(&2));
}

#[test]
fn equal_keys_hash_alike() {
    let a = "some key".to_string();
    let b = "some key".to_string();
    assert_eq!(a.key_hash(), b.key_hash());
    assert!(a.key_eq(&b));
    let c = "another".to_string();
    assert!(!a.key_eq(&c));
    let x: u64 = 7;
    let y: u64 = 7;
    assert_eq!(x.key_hash(), y.key_hash());
}

#[test]
fn empty_table_reads() {
    let mut map: HashMap<String, i32> = HashMap::new();
    assert!(map.is_empty());
    assert_eq!(map.get(&"anything".to_string()), None);
    assert!(!map.contains_key(&"anything".to_string()));
    assert_eq!(map.remove(&"anything".to_string()), None);
    assert!(map.iter().next().is_none());
}
