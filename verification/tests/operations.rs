use hash_table::key::hash_bytes;
use hash_table::{HashTable, Key, DEFAULT_BUCKET_SIZE};
use std::collections::hash_map::DefaultHasher;
use std::hash::Hasher;

fn digest(bytes: &[u8]) -> u64 {
    let mut hasher = DefaultHasher::new();
    hasher.write(bytes);
    hasher.finish()
}

#[test]
fn new_table_is_empty() {
    let table: HashTable<u64, u64> = HashTable::new(16);
    assert_eq!(table.size(), 0);
    assert_eq!(table.capacity(), 16);
    assert_eq!(table.get(1), None);
}

#[test]
fn zero_capacity_gives_one_bucket() {
    let mut table: HashTable<u64, u64> = HashTable::new(0);
    assert_eq!(table.capacity(), 1);
    table.insert(5, 50);
    assert_eq!(table.capacity(), 1);
    assert_eq!(table.get(5), Some(50));
}

#[test]
fn default_table_has_default_capacity() {
    let table: HashTable<String, u64> = HashTable::default();
    assert_eq!(DEFAULT_BUCKET_SIZE, 100);
    assert_eq!(table.capacity(), 100);
    assert_eq!(table.size(), 0);
}

#[test]
fn inserted_value_is_read_back_until_overwritten_or_deleted() {
    let mut table: HashTable<u64, u64> = HashTable::new(4);
    table.insert(1, 10);
    assert_eq!(table.get(1), Some(10));
    table.insert(2, 20);
    table.insert(3, 30);
    assert!(table.delete(2));
    assert_eq!(table.get(1), Some(10));
    table.insert(1, 11);
    assert_eq!(table.get(1), Some(11));
    assert!(table.delete(1));
    assert_eq!(table.get(1), None);
    assert_eq!(table.get(3), Some(30));
}

#[test]
fn inserting_a_key_twice_updates_the_value_and_keeps_the_size() {
    let mut table: HashTable<String, u64> = HashTable::new(8);
    table.insert("k".to_string(), 1);
    assert_eq!(table.size(), 1);
    table.insert("k".to_string(), 2);
    assert_eq!(table.size(), 1);
    assert_eq!(table.get("k".to_string()), Some(2));
}

#[test]
fn overwriting_in_a_full_table_does_not_resize() {
    let mut table: HashTable<u64, u64> = HashTable::new(2);
    table.insert(1, 10);
    table.insert(2, 20);
    assert_eq!(table.capacity(), 2);
    table.insert(2, 21);
    assert_eq!(table.capacity(), 2);
    assert_eq!(table.size(), 2);
    assert_eq!(table.get(1), Some(10));
    assert_eq!(table.get(2), Some(21));
}

#[test]
fn delete_reports_presence_and_adjusts_the_size() {
    let mut table: HashTable<u64, u64> = HashTable::new(8);
    table.insert(1, 10);
    table.insert(2, 20);
    assert_eq!(table.size(), 2);
    assert!(!table.delete(3));
    assert_eq!(table.size(), 2);
    assert!(table.delete(1));
    assert_eq!(table.size(), 1);
    assert_eq!(table.get(1), None);
    assert!(!table.delete(1));
    assert_eq!(table.size(), 1);
    assert_eq!(table.capacity(), 8);
}

#[test]
fn size_counts_distinct_inserts_across_resizes() {
    let mut table: HashTable<u64, u64> = HashTable::new(1);
    for n in 0..1000u64 {
        table.insert(n, n * 2);
        assert_eq!(table.size() as u64, n + 1);
    }
    assert_eq!(table.size(), 1000);
    assert!(table.capacity() >= 1000);
    for n in 0..1000u64 {
        assert_eq!(table.get(n), Some(n * 2));
    }
    assert_eq!(table.get(1000), None);
}

#[test]
fn capacity_grows_by_the_larger_of_doubling_and_the_default_step() {
    let mut table: HashTable<u64, u64> = HashTable::new(1);
    table.resize();
    assert_eq!(table.capacity(), 101);
    table.resize();
    assert_eq!(table.capacity(), 202);
    table.resize();
    assert_eq!(table.capacity(), 404);

    let mut table: HashTable<u64, u64> = HashTable::new(100);
    table.resize();
    assert_eq!(table.capacity(), 200);

    let mut table: HashTable<u64, u64> = HashTable::new(99);
    table.resize();
    assert_eq!(table.capacity(), 199);
}

#[test]
fn resize_keeps_every_entry() {
    let mut table: HashTable<String, u64> = HashTable::new(5);
    let keys = ["one", "two", "three", "four", "five"];
    for (n, key) in keys.iter().enumerate() {
        table.insert(key.to_string(), n as u64);
    }
    assert_eq!(table.capacity(), 5);
    table.resize();
    assert_eq!(table.capacity(), 105);
    assert_eq!(table.size(), 5);
    for (n, key) in keys.iter().enumerate() {
        assert_eq!(table.get(key.to_string()), Some(n as u64));
    }
    assert_eq!(table.get("six".to_string()), None);
}

#[test]
fn fourth_insert_into_three_buckets_resizes() {
    let mut table: HashTable<String, u64> = HashTable::new(3);
    table.insert("a".to_string(), 1);
    table.insert("b".to_string(), 2);
    table.insert("c".to_string(), 3);
    assert_eq!(table.size(), 3);
    assert_eq!(table.capacity(), 3);

    table.insert("d".to_string(), 4);
    assert_eq!(table.capacity(), 103);
    assert_eq!(table.size(), 4);
    assert_eq!(table.get("a".to_string()), Some(1));
    assert_eq!(table.get("b".to_string()), Some(2));
    assert_eq!(table.get("c".to_string()), Some(3));
    assert_eq!(table.get("d".to_string()), Some(4));
}

#[test]
fn index_of_a_string_is_its_digest_modulo_the_capacity() {
    let table: HashTable<String, u64> = HashTable::new(17);
    for key in ["", "a", "key_1", "a longer key with spaces", "\u{e9}t\u{e9}"] {
        let expected = (digest(key.as_bytes()) % 17) as usize;
        assert_eq!(table.create_index(&key.to_string()), expected);
    }
}

#[test]
fn index_of_an_integer_is_the_digest_of_its_bytes_modulo_the_capacity() {
    let table: HashTable<u64, u64> = HashTable::new(31);
    for key in [0u64, 1, 31, 255, 256, 0x0102_0304_0506_0708, u64::MAX] {
        let expected = (digest(&key.to_le_bytes()) % 31) as usize;
        assert_eq!(table.create_index(&key), expected);
    }
}

#[test]
fn index_follows_the_capacity_after_a_resize() {
    let mut table: HashTable<u64, u64> = HashTable::new(3);
    let before = table.create_index(&42);
    assert_eq!(before, (digest(&42u64.to_le_bytes()) % 3) as usize);
    assert_eq!(table.create_index(&42), before);
    table.resize();
    assert_eq!(table.create_index(&42), (digest(&42u64.to_le_bytes()) % 103) as usize);
}

#[test]
fn values_need_not_be_copyable() {
    let mut table: HashTable<u64, Vec<String>> = HashTable::new(2);
    table.insert(1, vec!["a".to_string()]);
    table.insert(1, vec!["a".to_string(), "b".to_string()]);
    assert_eq!(table.get(1), Some(vec!["a".to_string(), "b".to_string()]));
    assert_eq!(table.size(), 1);
}

#[test]
fn hash_of_bytes_is_the_digest_of_one_write() {
    for bytes in [&b""[..], &b"a"[..], &b"key_1"[..], &[0u8, 255, 7][..]] {
        assert_eq!(hash_bytes(bytes), digest(bytes));
    }
    assert_eq!(hash_bytes(b""), 15130871412783076140);
    assert_eq!(hash_bytes(b"key_1"), 1658977008564518167);
}

#[test]
fn hash_code_of_a_key_is_the_digest_of_its_bytes() {
    assert_eq!("key_1".to_string().hash_code(), 1658977008564518167);
    assert_eq!("key_1".to_string().hash_code(), digest(b"key_1"));
    assert_eq!(258u64.hash_code(), digest(&[2, 1, 0, 0, 0, 0, 0, 0]));
    assert_ne!("key_1".to_string().hash_code(), "key_2".to_string().hash_code());
}

#[test]
fn same_key_compares_the_keys_themselves() {
    assert!("a".to_string().same_key(&"a".to_string()));
    assert!(!"a".to_string().same_key(&"b".to_string()));
    assert!(7u64.same_key(&7));
    assert!(!7u64.same_key(&8));
}

#[test]
fn index_is_the_same_in_every_run() {
    let strings: HashTable<String, u64> = HashTable::new(100);
    assert_eq!(strings.create_index(&"key_1".to_string()), 67);
    let numbers: HashTable<u64, u64> = HashTable::new(100);
    assert_eq!(numbers.create_index(&42), 57);
}
