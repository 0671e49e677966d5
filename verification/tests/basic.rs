use chainmap::HashMap;

#[test]
fn insert() {
    let mut map: HashMap<String, i32> = HashMap::new();
    assert_eq!(map.len(), 0);
    map.insert("foo".to_string(), 42);
    assert_eq!(map.len(), 1);
    assert_eq!(map.get(&"foo".to_string()), Some(&42));
    assert_eq!(map.remove(&"foo".to_string()), Some(42));
    assert_eq!(map.get(&"foo".to_string()), None);
    assert!(map.is_empty());
}

#[test]
fn iter() {
    let mut map: HashMap<String, i32> = HashMap::new();
    map.insert("foo".to_string(), 42);
    map.insert("var".to_string(), 22);
    map.insert("dfs".to_string(), 34);
    map.insert("11".to_string(), 6);

    let mut it = map.iter();
    while let Some((k, v)) = it.next() {
        match k.as_str() {
            "foo" => assert_eq!(*v, 42),
            "var" => assert_eq!(*v, 22),
            "dfs" => assert_eq!(*v, 34),
            "11" => assert_eq!(*v, 6),
            _ => unreachable!(),
        }
    }
    let mut count = 0;
    let mut it2 = map.iter();
    while let Some(_) = it2.next() {
        count += 1;
    }
    assert_eq!(count, 4);

    let mut items = 0;
    let mut drain = map.into_iter();
    while let Some((k, v)) = drain.next() {
        match k.as_str() {
            "foo" => assert_eq!(v, 42),
            "var" => assert_eq!(v, 22),
            "dfs" => assert_eq!(v, 34),
            "11" => assert_eq!(v, 6),
            _ => unreachable!(),
        }
        items += 1;
    }
    assert_eq!(4, items);
    // map is moved
}
