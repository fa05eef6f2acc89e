//! Tests of the two index modes and their iterators.

use bitkv::index::BTree;
use bitkv::index::HashMap;
use bitkv::index::IndexIterator;
use bitkv::index::IndexIteratorMode;
use bitkv::keydir::KeyDirEntry;

fn fixed_u32(seed: u32) -> u32 {
    seed.wrapping_mul(2654435761).wrapping_add(12345)
}

fn fixed_u64(seed: u64) -> u64 {
    seed.wrapping_mul(6364136223846793005).wrapping_add(1442695040888963407)
}

fn entry(seed: u32) -> KeyDirEntry {
    KeyDirEntry::new(fixed_u32(seed), fixed_u64(seed as u64), fixed_u32(seed + 1))
}

fn same(a: &KeyDirEntry, b: &KeyDirEntry) -> bool {
    a.get_file_id() == b.get_file_id() && a.get_offset() == b.get_offset() && a.get_size()
        == b.get_size()
}

#[test]
fn test_btree_put_new_entry() {
    let mut map = BTree::new();
    let key = b"key".to_vec();
    let value = entry(1);
    let result = map.put(key.clone(), value);
    assert!(result.is_none(), "Expected None, got {:?}", result);
    let retrieved = map.get(&key).unwrap();
    assert_eq!(retrieved.get_file_id(), value.get_file_id());
    assert_eq!(retrieved.get_offset(), value.get_offset());
    assert_eq!(retrieved.get_size(), value.get_size());
}

#[test]
fn test_btree_put_update_existing_entry() {
    let mut map = BTree::new();
    let key = b"key".to_vec();
    let value1 = entry(2);
    let value2 = entry(3);
    map.put(key.clone(), value1);
    let result = map.put(key.clone(), value2);
    assert!(result.is_some(), "Expected Some, got None");
    let retrieved = result.unwrap();
    assert_eq!(retrieved.get_file_id(), value1.get_file_id());
    assert_eq!(retrieved.get_offset(), value1.get_offset());
    assert_eq!(retrieved.get_size(), value1.get_size());
}

#[test]
fn test_btree_get_existing_entry() {
    let mut map = BTree::new();
    let apple = b"apple".to_vec();
    let apple_entry = entry(4);
    let banana = b"banana".to_vec();
    let banana_entry = entry(5);
    map.put(apple.clone(), apple_entry);
    map.put(banana.clone(), banana_entry);
    match map.get(&apple) {
        Some(retrieved) => {
            assert_eq!(retrieved.get_file_id(), apple_entry.get_file_id());
            assert_eq!(retrieved.get_offset(), apple_entry.get_offset());
            assert_eq!(retrieved.get_size(), apple_entry.get_size());
        },
        None => panic!("Expected Some, got None"),
    }
    match map.get(&banana) {
        Some(retrieved) => {
            assert_eq!(retrieved.get_file_id(), banana_entry.get_file_id());
            assert_eq!(retrieved.get_offset(), banana_entry.get_offset());
            assert_eq!(retrieved.get_size(), banana_entry.get_size());
        },
        None => panic!("Expected Some, got None"),
    }
}

#[test]
fn test_btree_get_non_existing_entry() {
    let map = BTree::new();
    let key = b"key".to_vec();
    let result = map.get(&key);
    assert!(result.is_none(), "Expected None, got {:?}", result);
}

#[test]
fn test_btree_delete_existing_entry() {
    let mut map = BTree::new();
    let apple = b"apple".to_vec();
    let apple_entry = entry(6);
    let banana = b"banana".to_vec();
    let banana_entry = entry(7);
    map.put(apple.clone(), apple_entry);
    map.put(banana.clone(), banana_entry);
    match map.delete(&apple) {
        Some(deleted_entry) => {
            assert_eq!(deleted_entry.get_file_id(), apple_entry.get_file_id());
            assert_eq!(deleted_entry.get_offset(), apple_entry.get_offset());
            assert_eq!(deleted_entry.get_size(), apple_entry.get_size());
        },
        None => panic!("Expected Some, got None"),
    }
    match map.delete(&banana) {
        Some(deleted_entry) => {
            assert_eq!(deleted_entry.get_file_id(), banana_entry.get_file_id());
            assert_eq!(deleted_entry.get_offset(), banana_entry.get_offset());
            assert_eq!(deleted_entry.get_size(), banana_entry.get_size());
        },
        None => panic!("Expected Some, got None"),
    }
}

#[test]
fn test_btree_delete_non_existing_entry() {
    let mut map = BTree::new();
    let key = b"key".to_vec();
    let result = map.delete(&key);
    assert!(result.is_none(), "Expected None, got {:?}", result);
}

#[test]
fn test_btree_iterator_next() {
    let mut map = BTree::new();
    let apple = b"apple".to_vec();
    let apple_entry = entry(8);
    let banana = b"banana".to_vec();
    let banana_entry = entry(9);
    map.put(apple.clone(), apple_entry);
    map.put(banana.clone(), banana_entry);
    let mut iterator = match map.iter() {
        IndexIteratorMode::BTree(iter) => iter,
        _ => panic!("Unexpected iterator type"),
    };
    let mut results: Vec<(Vec<u8>, KeyDirEntry)> = Vec::new();
    while let Some((key, e)) = iterator.next() {
        results.push((key, e));
    }
    assert_eq!(results.len(), 2);
    assert!(results.iter().any(|(k, e)| k == &apple && same(e, &apple_entry)));
    assert!(results.iter().any(|(k, e)| k == &banana && same(e, &banana_entry)));
}

#[test]
fn test_btree_iterator_rewind() {
    let mut map = BTree::new();
    let key = b"key".to_vec();
    let e = entry(10);
    map.put(key.clone(), e);
    let mut iterator = match map.iter() {
        IndexIteratorMode::BTree(iter) => iter,
        _ => panic!("Unexpected iterator type"),
    };
    iterator.next();
    iterator.rewind();
    if let Some((iter_key, iter_entry)) = iterator.next() {
        assert_eq!(iter_key, key);
        assert!(same(&iter_entry, &e));
    } else {
        panic!("Iterator did not return any element after rewind");
    }
}

#[test]
fn test_btree_iterator_seek() {
    let mut map = BTree::new();
    let key1 = b"apple".to_vec();
    let entry1 = entry(11);
    let key2 = b"banana".to_vec();
    let entry2 = entry(12);
    let key3 = b"cherry".to_vec();
    let entry3 = entry(13);
    map.put(key1.clone(), entry1);
    map.put(key2.clone(), entry2);
    map.put(key3.clone(), entry3);
    let mut iterator = match map.iter() {
        IndexIteratorMode::BTree(iter) => iter,
        _ => panic!("Unexpected iterator type"),
    };
    iterator.seek(b"banana".to_vec());
    if let Some((iter_key, iter_entry)) = iterator.next() {
        assert_eq!(iter_key, key2);
        assert!(same(&iter_entry, &entry2));
    } else {
        panic!("Iterator did not return expected element after seek");
    }
    if let Some((iter_key, iter_entry)) = iterator.next() {
        assert_eq!(iter_key, key3);
        assert!(same(&iter_entry, &entry3));
    } else {
        panic!("Iterator did not return next element after seek");
    }
    assert!(iterator.next().is_none());
}

#[test]
fn test_hashmap_put_new_entry() {
    let mut map = HashMap::new();
    let key = b"key".to_vec();
    let value = entry(14);
    let result = map.put(key.clone(), value);
    assert!(result.is_none(), "Expected None, got {:?}", result);
    let retrieved = map.get(&key).unwrap();
    assert_eq!(retrieved.get_file_id(), value.get_file_id());
    assert_eq!(retrieved.get_offset(), value.get_offset());
    assert_eq!(retrieved.get_size(), value.get_size());
}

#[test]
fn test_hashmap_put_update_existing_entry() {
    let mut map = HashMap::new();
    let key = b"key".to_vec();
    let value1 = entry(15);
    let value2 = entry(16);
    map.put(key.clone(), value1);
    let result = map.put(key.clone(), value2);
    assert!(result.is_some(), "Expected Some, got None");
    let retrieved = result.unwrap();
    assert_eq!(retrieved.get_file_id(), value1.get_file_id());
    assert_eq!(retrieved.get_offset(), value1.get_offset());
    assert_eq!(retrieved.get_size(), value1.get_size());
}

#[test]
fn test_hashmap_get_existing_entry() {
    let mut map = HashMap::new();
    let apple = b"apple".to_vec();
    let apple_entry = entry(17);
    let banana = b"banana".to_vec();
    let banana_entry = entry(18);
    map.put(apple.clone(), apple_entry);
    map.put(banana.clone(), banana_entry);
    match map.get(&apple) {
        Some(retrieved) => {
            assert_eq!(retrieved.get_file_id(), apple_entry.get_file_id());
            assert_eq!(retrieved.get_offset(), apple_entry.get_offset());
            assert_eq!(retrieved.get_size(), apple_entry.get_size());
        },
        None => panic!("Expected Some, got None"),
    }
    match map.get(&banana) {
        Some(retrieved) => {
            assert_eq!(retrieved.get_file_id(), banana_entry.get_file_id());
            assert_eq!(retrieved.get_offset(), banana_entry.get_offset());
            assert_eq!(retrieved.get_size(), banana_entry.get_size());
        },
        None => panic!("Expected Some, got None"),
    }
}

#[test]
fn test_hashmap_get_non_existing_entry() {
    let map = HashMap::new();
    let key = b"key".to_vec();
    let result = map.get(&key);
    assert!(result.is_none(), "Expected None, got {:?}", result);
}

#[test]
fn test_hashmap_delete_existing_entry() {
    let mut map = HashMap::new();
    let apple = b"apple".to_vec();
    let apple_entry = entry(19);
    let banana = b"banana".to_vec();
    let banana_entry = entry(20);
    map.put(apple.clone(), apple_entry);
    map.put(banana.clone(), banana_entry);
    match map.delete(&apple) {
        Some(deleted_entry) => {
            assert_eq!(deleted_entry.get_file_id(), apple_entry.get_file_id());
            assert_eq!(deleted_entry.get_offset(), apple_entry.get_offset());
            assert_eq!(deleted_entry.get_size(), apple_entry.get_size());
        },
        None => panic!("Expected Some, got None"),
    }
    match map.delete(&banana) {
        Some(deleted_entry) => {
            assert_eq!(deleted_entry.get_file_id(), banana_entry.get_file_id());
            assert_eq!(deleted_entry.get_offset(), banana_entry.get_offset());
            assert_eq!(deleted_entry.get_size(), banana_entry.get_size());
        },
        None => panic!("Expected Some, got None"),
    }
}

#[test]
fn test_hashmap_delete_non_existing_entry() {
    let mut map = HashMap::new();
    let key = b"key".to_vec();
    let result = map.delete(&key);
    assert!(result.is_none(), "Expected None, got {:?}", result);
}

#[test]
fn test_hashmap_iterator_next() {
    let mut map = HashMap::new();
    let apple = b"apple".to_vec();
    let apple_entry = entry(21);
    let banana = b"banana".to_vec();
    let banana_entry = entry(22);
    map.put(apple.clone(), apple_entry);
    map.put(banana.clone(), banana_entry);
    let mut iterator = match map.iter() {
        IndexIteratorMode::HashMap(iter) => iter,
        _ => panic!("Unexpected iterator type"),
    };
    let mut results: Vec<(Vec<u8>, KeyDirEntry)> = Vec::new();
    while let Some((key, e)) = iterator.next() {
        results.push((key, e));
    }
    assert_eq!(results.len(), 2);
    assert!(results.iter().any(|(k, e)| k == &apple && same(e, &apple_entry)));
    assert!(results.iter().any(|(k, e)| k == &banana && same(e, &banana_entry)));
}

#[test]
fn test_hashmap_iterator_rewind() {
    let mut map = HashMap::new();
    let key = b"key".to_vec();
    let e = entry(23);
    map.put(key.clone(), e);
    let mut iterator = match map.iter() {
        IndexIteratorMode::HashMap(iter) => iter,
        _ => panic!("Unexpected iterator type"),
    };
    iterator.next();
    iterator.rewind();
    if let Some((iter_key, iter_entry)) = iterator.next() {
        assert_eq!(iter_key, key);
        assert!(same(&iter_entry, &e));
    } else {
        panic!("Iterator did not return any element after rewind");
    }
}

#[test]
fn test_hashmap_iterator_seek() {
    let mut map = HashMap::new();
    let key1 = b"apple".to_vec();
    let entry1 = entry(24);
    let key2 = b"banana".to_vec();
    let entry2 = entry(25);
    let key3 = b"cherry".to_vec();
    let entry3 = entry(26);
    map.put(key1.clone(), entry1);
    map.put(key2.clone(), entry2);
    map.put(key3.clone(), entry3);
    let mut iterator = match map.iter() {
        IndexIteratorMode::HashMap(iter) => iter,
        _ => panic!("Unexpected iterator type"),
    };
    iterator.seek(b"banana".to_vec());
    if let Some((iter_key, iter_entry)) = iterator.next() {
        assert_eq!(iter_key, key2);
        assert!(same(&iter_entry, &entry2));
    } else {
        panic!("Iterator did not return expected element after seek");
    }
    if let Some((iter_key, iter_entry)) = iterator.next() {
        assert_eq!(iter_key, key3);
        assert!(same(&iter_entry, &entry3));
    } else {
        panic!("Iterator did not return next element after seek");
    }
    assert!(iterator.next().is_none());
}

#[test]
fn test_list_keys_sorted() {
    let mut map = BTree::new();
    map.put(b"cherry".to_vec(), entry(27));
    map.put(b"apple".to_vec(), entry(28));
    map.put(b"banana".to_vec(), entry(29));
    let keys = map.list_keys();
    assert_eq!(keys, vec![b"apple".to_vec(), b"banana".to_vec(), b"cherry".to_vec()]);
    assert_eq!(map.len(), 3);
}
