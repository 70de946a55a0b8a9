use hash_table::HashTable;

fn collect(table: &HashTable<String, u64>) -> Vec<(String, u64)> {
    let mut pass = table.iter();
    let mut seen = Vec::new();
    while let Some((key, value)) = pass.next() {
        seen.push((key.clone(), *value));
    }
    assert!(pass.next().is_none());
    seen
}

#[test]
fn iteration_yields_each_pair_once() {
    let mut table: HashTable<String, u64> = HashTable::new(4);
    table.insert("x".to_string(), 1);
    table.insert("y".to_string(), 2);

    let mut seen = collect(&table);
    assert_eq!(seen.len(), 2);
    seen.sort();
    assert_eq!(seen, vec![("x".to_string(), 1), ("y".to_string(), 2)]);
}

#[test]
fn iteration_over_an_empty_table_yields_nothing() {
    let table: HashTable<String, u64> = HashTable::new(4);
    assert_eq!(collect(&table), Vec::new());
}

#[test]
fn iteration_can_be_started_again() {
    let mut table: HashTable<String, u64> = HashTable::new(2);
    for n in 0..20u64 {
        table.insert(format!("key_{}", n), n);
    }
    let first = collect(&table);
    let second = collect(&table);
    assert_eq!(first.len(), 20);
    assert_eq!(first, second);
}

#[test]
fn iteration_follows_inserts_overwrites_and_deletes() {
    let mut table: HashTable<String, u64> = HashTable::new(1);
    for n in 0..50u64 {
        table.insert(format!("key_{}", n), n);
    }
    for n in 0..50u64 {
        if n % 2 == 0 {
            assert!(table.delete(format!("key_{}", n)));
        } else {
            table.insert(format!("key_{}", n), n + 100);
        }
    }
    let mut seen = collect(&table);
    assert_eq!(seen.len(), table.size());
    seen.sort();
    let mut expected: Vec<(String, u64)> = Vec::new();
    for n in 0..50u64 {
        if n % 2 == 1 {
            expected.push((format!("key_{}", n), n + 100));
        }
    }
    expected.sort();
    assert_eq!(seen, expected);
}
