use bitcask_kv::{BTree, Indexer, LogRecordPos};

#[test]
fn test_btree_put() {
    let mut btree = BTree::new();
    assert!(btree.put(vec![1, 2, 3], LogRecordPos { file_id: 0, offset: 42 }));
    assert!(btree.put(b"hello".to_vec(), LogRecordPos { file_id: 1, offset: 16 }));
}

#[test]
fn test_btree_get() {
    let mut btree = BTree::new();
    assert!(btree.put(vec![1, 2, 3], LogRecordPos { file_id: 0, offset: 42 }));
    assert!(btree.put(b"hello".to_vec(), LogRecordPos { file_id: 1, offset: 16 }));

    assert_eq!(btree.get(&[1, 2, 3]), Some(LogRecordPos { file_id: 0, offset: 42 }));
    assert_eq!(btree.get(b"hello"), Some(LogRecordPos { file_id: 1, offset: 16 }));

    assert_eq!(btree.get(&[1, 2]), None);
    assert_eq!(btree.get(b"world"), None);
}

#[test]
fn test_btree_delete() {
    let mut btree = BTree::new();
    assert!(btree.put(vec![1, 2, 3], LogRecordPos { file_id: 0, offset: 42 }));
    assert!(btree.put(b"hello".to_vec(), LogRecordPos { file_id: 1, offset: 16 }));

    assert!(btree.delete(&[1, 2, 3]));

    assert!(!btree.delete(&[1, 2]));
    assert!(!btree.delete(b"world"));
}

#[test]
fn btree_overwrite_keeps_last_position() {
    let mut btree = BTree::new();
    assert!(btree.put(b"k".to_vec(), LogRecordPos { file_id: 0, offset: 1 }));
    assert!(btree.put(b"k".to_vec(), LogRecordPos { file_id: 2, offset: 7 }));
    assert_eq!(btree.get(b"k"), Some(LogRecordPos { file_id: 2, offset: 7 }));
    assert!(btree.delete(b"k"));
    assert_eq!(btree.get(b"k"), None);
    assert!(!btree.delete(b"k"));
}

#[test]
fn btree_keys_are_ordered() {
    let mut btree = BTree::new();
    for k in [b"pear".to_vec(), b"apple".to_vec(), vec![], b"app".to_vec(), vec![0xff], b"b".to_vec()] {
        assert!(btree.put(k, LogRecordPos { file_id: 0, offset: 0 }));
    }
    assert!(btree.put(b"app".to_vec(), LogRecordPos { file_id: 3, offset: 9 }));
    assert!(btree.delete(b"b"));
    assert_eq!(
        btree.keys(),
        vec![vec![], b"app".to_vec(), b"apple".to_vec(), b"pear".to_vec(), vec![0xff]]
    );
    assert_eq!(btree.get(b"app"), Some(LogRecordPos { file_id: 3, offset: 9 }));
}
