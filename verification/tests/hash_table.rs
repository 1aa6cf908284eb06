use obr::hash_table::HashTable;

#[test]
fn test_new_hash_table() {
    let table: HashTable<String, i32> = HashTable::new();
    assert_eq!(table.len(), 0);
    assert!(table.is_empty());
}

#[test]
fn test_insert_and_get() {
    let mut table = HashTable::new();
    table.insert("key1".to_string(), 42);
    table.insert("key2".to_string(), 84);

    assert_eq!(table.get(&"key1".to_string()), Some(&42));
    assert_eq!(table.get(&"key2".to_string()), Some(&84));
    assert_eq!(table.get(&"key3".to_string()), None);
    assert_eq!(table.len(), 2);
}

#[test]
fn test_insert_duplicate_key() {
    let mut table = HashTable::new();
    assert_eq!(table.insert("key".to_string(), 42), None);
    assert_eq!(table.insert("key".to_string(), 84), Some(42));
    assert_eq!(table.get(&"key".to_string()), Some(&84));
    assert_eq!(table.len(), 1);
}

#[test]
fn test_remove() {
    let mut table = HashTable::new();
    table.insert("key1".to_string(), 42);
    table.insert("key2".to_string(), 84);

    assert_eq!(table.remove(&"key1".to_string()), Some(42));
    assert_eq!(table.get(&"key1".to_string()), None);
    assert_eq!(table.remove(&"key1".to_string()), None);
    assert_eq!(table.len(), 1);
}

#[test]
fn test_contains_key() {
    let mut table = HashTable::new();
    table.insert("key".to_string(), 42);

    assert!(table.contains_key(&"key".to_string()));
    assert!(!table.contains_key(&"nonexistent".to_string()));
}

#[test]
fn test_resize() {
    let mut table = HashTable::with_capacity(2);

    for i in 0..10 {
        table.insert(i, i * 10);
    }

    for i in 0..10 {
        assert_eq!(table.get(&i), Some(&(i * 10)));
    }

    assert_eq!(table.len(), 10);
}

#[test]
fn test_iterators() {
    let mut table = HashTable::new();
    table.insert("a".to_string(), 1);
    table.insert("b".to_string(), 2);
    table.insert("c".to_string(), 3);

    let keys = table.keys();
    let values = table.values();

    assert_eq!(keys.len(), 3);
    assert_eq!(values.len(), 3);

    let pairs = table.iter();
    assert_eq!(pairs.len(), 3);
}

#[test]
fn test_many_entries_after_growth() {
    let mut table = HashTable::with_capacity(1);
    for i in 0..200i32 {
        assert_eq!(table.insert(format!("station-{}", i), i), None);
    }
    assert_eq!(table.len(), 200);
    for i in 0..200i32 {
        assert_eq!(table.get(&format!("station-{}", i)), Some(&i));
    }
    for i in 0..100i32 {
        assert_eq!(table.remove(&format!("station-{}", i)), Some(i));
    }
    assert_eq!(table.len(), 100);
    assert_eq!(table.get(&"station-42".to_string()), None);
    assert_eq!(table.get(&"station-142".to_string()), Some(&142));
}

#[test]
fn test_overwrite_then_remove() {
    let mut table: HashTable<String, u64> = HashTable::new();
    table.insert("x".to_string(), 1);
    table.insert("x".to_string(), 2);
    table.insert("x".to_string(), 3);
    assert_eq!(table.len(), 1);
    assert_eq!(table.remove(&"x".to_string()), Some(3));
    assert!(table.is_empty());
}

#[test]
fn test_default_table_is_empty() {
    let table: HashTable<String, i32> = HashTable::default();
    assert!(table.is_empty());
}
