use hash_table::HashTable;

#[test]
fn main_test_new() {
    let hash_table: HashTable<String, u64> = HashTable::default();
    assert_eq!(hash_table.size(), 0);
}

#[test]
fn main_test_insert() {
    let mut hash_table: HashTable<String, u64> = HashTable::default();

    hash_table.insert("key1".to_string(), 1);
    hash_table.insert("key2".to_string(), 2);
    hash_table.insert("key3".to_string(), 3);

    assert_eq!(hash_table.size(), 3);

    assert_eq!(hash_table.get("key1".to_string()), Some(1));
    assert_eq!(hash_table.get("key3".to_string()), Some(3));
}

#[test]
fn main_test_delete() {
    let mut hash_table: HashTable<String, u64> = HashTable::default();

    hash_table.insert("key1".to_string(), 1);
    hash_table.insert("key2".to_string(), 2);

    assert!(hash_table.delete("key1".to_string()));
    assert_eq!(hash_table.get("key1".to_string()), None);
    assert_eq!(hash_table.get("key2".to_string()), Some(2));
    assert_eq!(hash_table.size(), 1);

    assert!(!hash_table.delete("key1".to_string()));
    assert_eq!(hash_table.size(), 1);
}
