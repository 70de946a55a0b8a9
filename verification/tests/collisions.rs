use hash_table::HashTable;

/// Finds `count` keys that share one bucket of a table with `capacity` buckets.
fn colliding_keys(capacity: usize, count: usize) -> Vec<String> {
    let probe: HashTable<String, u64> = HashTable::new(capacity);
    let mut by_bucket: Vec<Vec<String>> = vec![Vec::new(); capacity];
    for n in 0..(capacity * count) {
        let key = format!("key_{}", n);
        let index = probe.create_index(&key);
        by_bucket[index].push(key);
        if by_bucket[index].len() == count {
            return by_bucket[index].clone();
        }
    }
    unreachable!()
}

#[test]
fn colliding_keys_are_kept_apart() {
    let keys = colliding_keys(4, 2);
    let mut table: HashTable<String, u64> = HashTable::new(4);
    assert_eq!(table.create_index(&keys[0]), table.create_index(&keys[1]));

    table.insert(keys[0].clone(), 10);
    table.insert(keys[1].clone(), 20);
    assert_eq!(table.capacity(), 4);
    assert_eq!(table.size(), 2);
    assert_eq!(table.get(keys[0].clone()), Some(10));
    assert_eq!(table.get(keys[1].clone()), Some(20));

    assert!(table.delete(keys[0].clone()));
    assert_eq!(table.get(keys[0].clone()), None);
    assert_eq!(table.get(keys[1].clone()), Some(20));
    assert_eq!(table.size(), 1);
}

#[test]
fn a_chain_of_three_loses_only_the_deleted_entry() {
    for gone in 0..3 {
        let keys = colliding_keys(4, 3);
        let mut table: HashTable<String, u64> = HashTable::new(4);
        for (n, key) in keys.iter().enumerate() {
            table.insert(key.clone(), n as u64);
        }
        assert_eq!(table.capacity(), 4);
        assert_eq!(table.size(), 3);

        assert!(table.delete(keys[gone].clone()));
        assert_eq!(table.size(), 2);
        for (n, key) in keys.iter().enumerate() {
            let expected = if n == gone { None } else { Some(n as u64) };
            assert_eq!(table.get(key.clone()), expected);
        }
    }
}

#[test]
fn overwriting_one_colliding_key_leaves_the_other() {
    let keys = colliding_keys(4, 2);
    let mut table: HashTable<String, u64> = HashTable::new(4);
    table.insert(keys[0].clone(), 1);
    table.insert(keys[1].clone(), 2);
    table.insert(keys[0].clone(), 3);
    assert_eq!(table.size(), 2);
    assert_eq!(table.get(keys[0].clone()), Some(3));
    assert_eq!(table.get(keys[1].clone()), Some(2));
}

#[test]
fn colliding_keys_survive_a_resize() {
    let keys = colliding_keys(4, 3);
    let mut table: HashTable<String, u64> = HashTable::new(4);
    for (n, key) in keys.iter().enumerate() {
        table.insert(key.clone(), n as u64);
    }
    table.resize();
    assert_eq!(table.capacity(), 104);
    for (n, key) in keys.iter().enumerate() {
        assert_eq!(table.get(key.clone()), Some(n as u64));
    }
}
