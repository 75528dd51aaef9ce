use myqueue::hashmap::ConcurrentHashMap;

#[test]
fn test_insert_and_get_single_shard() {
    let mut map = ConcurrentHashMap::<String, i32>::new(1);

    map.insert("key1".to_string(), 10);
    assert_eq!(map.get(&"key1".to_string()), Some(10));

    map.insert("key2".to_string(), 20);
    assert_eq!(map.get(&"key2".to_string()), Some(20));
    assert_eq!(map.get(&"key1".to_string()), Some(10));
    assert_eq!(map.get(&"non_existent_key".to_string()), None);
}

#[test]
fn test_insert_and_get_multiple_shards() {
    let mut map = ConcurrentHashMap::<String, i32>::new(4);
    let keys = [
        "key0", "key1", "key2", "key3", "key4", "key5", "key6", "key7", "key8", "key9",
    ];
    for (i, key) in keys.iter().enumerate() {
        map.insert(key.to_string(), i as i32);
    }

    for (i, key) in keys.iter().enumerate() {
        assert_eq!(map.get(&key.to_string()), Some(i as i32));
    }
    assert_eq!(map.get(&"non_existent_key".to_string()), None);
}

#[test]
fn test_insert_overwrite() {
    let mut map = ConcurrentHashMap::<String, i32>::new(2);

    let initial_insert = map.insert("key1".to_string(), 20);
    assert_eq!(initial_insert, None);
    assert_eq!(map.get(&"key1".to_string()), Some(20));

    let overwrite_insert = map.insert("key1".to_string(), 30);
    assert_eq!(overwrite_insert, Some(20));
    assert_eq!(map.get(&"key1".to_string()), Some(30));
}

#[test]
fn test_remove() {
    let mut map = ConcurrentHashMap::<String, i32>::new(3);

    map.insert("key1".to_string(), 40);
    assert_eq!(map.get(&"key1".to_string()), Some(40));

    let remove_existing = map.remove(&"key1".to_string());
    assert_eq!(remove_existing, Some(40));
    assert_eq!(map.get(&"key1".to_string()), None);

    let remove_again = map.remove(&"key1".to_string());
    assert_eq!(remove_again, None);

    let remove_non_existent = map.remove(&"non_existent_key".to_string());
    assert_eq!(remove_non_existent, None);
}

#[test]
fn test_many_keys_spread_over_shards() {
    let mut map = ConcurrentHashMap::<u64, u64>::new(8);
    for k in 0..200u64 {
        assert_eq!(map.insert(k, k * 3), None);
    }
    for k in 0..200u64 {
        assert_eq!(map.get(&k), Some(k * 3));
    }
    for k in 0..200u64 {
        assert_eq!(map.remove(&k), Some(k * 3));
        assert_eq!(map.get(&k), None);
    }
}
