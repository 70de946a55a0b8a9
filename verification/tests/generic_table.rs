use hash_table::HashTable;

#[test]
fn lib_test_new() {
    let hash_table: HashTable<String, u64> = HashTable::new(100);
    assert_eq!(hash_table.size(), 0);
}

#[test]
fn lib_test_insert() {
    let mut hash_table: HashTable<String, u64> = HashTable::new(100);

    hash_table.insert("key1".to_string(), 1);
    hash_table.insert("key2".to_string(), 2);
    hash_table.insert("key3".to_string(), 3);

    assert_eq!(hash_table.size(), 3);

    assert_eq!(hash_table.get("key1".to_string()), Some(1));
    assert_eq!(hash_table.get("key3".to_string()), Some(3));
}

#[test]
fn lib_test_delete() {
    let mut hash_table: HashTable<String, u64> = HashTable::new(100);

    hash_table.insert("key1".to_string(), 1);
    hash_table.insert("key2".to_string(), 2);
    hash_table.insert("key3".to_string(), 3);

    assert_eq!(hash_table.get("key2".to_string()), Some(2));

    hash_table.delete("key2".to_string());

    assert_eq!(hash_table.get("key2".to_string()), None);
}

#[test]
fn test_iterator() {
    let mut hash_table = HashTable::new(10);
    hash_table.insert("key_1".to_string(), "value1".to_string());
    hash_table.insert("key_2".to_string(), "value2".to_string());

    let mut iter = hash_table.iter();
    let mut seen: Vec<(String, String)> = Vec::new();
    while let Some((key, value)) = iter.next() {
        seen.push((key.clone(), value.clone()));
    }
    seen.sort();

    assert_eq!(
        seen,
        vec![
            ("key_1".to_string(), "value1".to_string()),
            ("key_2".to_string(), "value2".to_string()),
        ]
    );
}

#[test]
fn test_resize() {
    let mut hash_table: HashTable<String, u64> = HashTable::new(3);

    assert_eq!(hash_table.capacity(), 3);

    hash_table.insert("key_1".to_string(), 1);
    hash_table.insert("key_22".to_string(), 2);
    hash_table.insert("key_33".to_string(), 3);

    hash_table.insert("key_4".to_string(), 4);

    assert_eq!(hash_table.capacity(), 103);

    assert_eq!(hash_table.get("key_1".to_string()), Some(1));
    assert_eq!(hash_table.get("key_22".to_string()), Some(2));
    assert_eq!(hash_table.get("key_33".to_string()), Some(3));
    assert_eq!(hash_table.get("key_4".to_string()), Some(4));
}
