use btree_storage::error::StorageError;
use btree_storage::storage::disk_manager::{DiskAction, DiskManagerImpl};
use btree_storage::types::page_id::PageId;
use btree_storage::types::BTreeConfig;
use btree_storage::{Config, Db};

fn open_fresh() -> Db<DiskManagerImpl> {
    Db::open(&[], Config::new("test.db")).unwrap()
}

/// Performs the actions on a file held in memory.
fn perform(file: &mut Vec<u8>, actions: Vec<DiskAction>) {
    for action in actions {
        if let DiskAction::Write { offset, data } = action {
            let start = offset as usize;
            if file.len() < start + data.len() {
                file.resize(start + data.len(), 0);
            }
            file[start..start + data.len()].copy_from_slice(&data);
        }
    }
}

#[test]
fn test_basic_operations() {
    let mut db = open_fresh();

    // Test put and get
    db.put(b"key1", b"value1").unwrap();
    assert_eq!(db.get(b"key1").unwrap(), Some(b"value1".to_vec()));

    // Test update
    db.put(b"key1", b"value2").unwrap();
    assert_eq!(db.get(b"key1").unwrap(), Some(b"value2".to_vec()));

    // Test delete
    assert!(db.delete(b"key1").unwrap());
    assert_eq!(db.get(b"key1").unwrap(), None);

    // Test non-existent key
    assert_eq!(db.get(b"nonexistent").unwrap(), None);
    assert!(!db.delete(b"nonexistent").unwrap());
}

#[test]
fn test_range_scan() {
    let mut db = open_fresh();

    // Insert some data
    db.put(b"apple", b"1").unwrap();
    db.put(b"banana", b"2").unwrap();
    db.put(b"cherry", b"3").unwrap();
    db.put(b"date", b"4").unwrap();

    // Full scan
    let all = db.iter().unwrap();
    assert_eq!(all.len(), 4);

    // Range scan
    let range = db.range(Some(b"banana"), Some(b"date")).unwrap();
    assert_eq!(range.len(), 2);
    assert_eq!(range[0].0, b"banana".to_vec());
    assert_eq!(range[1].0, b"cherry".to_vec());
}

#[test]
fn test_page_id_display() {
    assert_eq!(PageId::new(42).to_string(), "42");
    assert_eq!(PageId::invalid().to_string(), "INVALID");
}

#[test]
fn test_page_id_text_of_edge_numbers() {
    assert_eq!(PageId::new(0).to_string(), "0");
    assert_eq!(PageId::new(10).to_string(), "10");
    assert_eq!(PageId::new(4294967294).to_string(), "4294967294");
}

#[test]
fn test_error_text() {
    assert_eq!(StorageError::PageNotFound(PageId::new(7)).to_string(), "Page 7 not found");
    assert_eq!(
        StorageError::PageFull { page_id: PageId::invalid(), needed: 12, available: 3 }.to_string(),
        "Page INVALID is full, need 12 bytes but only 3 available"
    );
    assert_eq!(
        StorageError::KeyTooLarge { size: 2000, max: 1024 }.to_string(),
        "Key too large: 2000 bytes (max: 1024)"
    );
    assert_eq!(
        StorageError::ValueTooLarge { size: 3000, max: 2048 }.to_string(),
        "Value too large: 3000 bytes (max: 2048)"
    );
    assert_eq!(StorageError::corruption("bad").to_string(), "Corruption detected: bad");
    assert_eq!(StorageError::invalid_page("bad").to_string(), "Invalid page: bad");
    assert_eq!(StorageError::invalid_operation("no").to_string(), "Invalid operation: no");
    assert_eq!(StorageError::invalid_db("x").to_string(), "Invalid database file: x");
    assert_eq!(
        StorageError::BufferPoolExhausted.to_string(),
        "Buffer pool exhausted: no available frames"
    );
    assert_eq!(StorageError::KeyNotFound.to_string(), "Key not found");
    let io = StorageError::Io(std::io::Error::from(std::io::ErrorKind::UnexpectedEof));
    assert!(io.to_string().starts_with("I/O error: "));
    assert!(io.to_string().len() > "I/O error: ".len());
}

#[test]
fn test_config_builders() {
    let config = Config::new("some.db");
    assert_eq!(config.path, "some.db");
    assert_eq!(config.buffer_pool_size, 1000);
    assert!(!config.sync_on_write);
    assert_eq!(config.btree_config.max_leaf_keys, 4);
    assert_eq!(config.btree_config.max_interior_keys, 3);
    let config = config
        .buffer_pool_size(7)
        .sync_on_write(true)
        .btree_config(BTreeConfig::high_capacity());
    assert_eq!(config.path, "some.db");
    assert_eq!(config.buffer_pool_size, 7);
    assert!(config.sync_on_write);
    assert_eq!(config.btree_config.max_leaf_keys, 1000);
    let db = Db::open(&[], config).unwrap();
    assert_eq!(db.stats().buffer_pool_size, 7);
    assert_eq!(db.btree_config().max_interior_keys, 1000);
}

#[test]
fn scenario_fresh_database_is_empty() {
    let mut db = open_fresh();
    assert_eq!(db.get(b"x").unwrap(), None);
    assert_eq!(db.stats().tree_height, 0);
    assert_eq!(db.stats().page_count, 1);
    assert_eq!(db.stats().buffer_pool_size, 1000);
    assert!(!db.contains(b"x").unwrap());
    assert!(db.iter().unwrap().is_empty());
    assert!(!db.delete(b"x").unwrap());
}

#[test]
fn scenario_first_put_makes_a_root() {
    let mut db = open_fresh();
    db.put(b"hello", b"world").unwrap();
    assert_eq!(db.get(b"hello").unwrap(), Some(b"world".to_vec()));
    assert_eq!(db.stats().tree_height, 1);
    assert_eq!(db.stats().page_count, 2);
    assert!(db.contains(b"hello").unwrap());
}

#[test]
fn scenario_iter_is_in_key_order() {
    let mut db = open_fresh();
    db.put(b"c", b"3").unwrap();
    db.put(b"a", b"1").unwrap();
    db.put(b"b", b"2").unwrap();
    assert_eq!(
        db.iter().unwrap(),
        vec![
            (b"a".to_vec(), b"1".to_vec()),
            (b"b".to_vec(), b"2".to_vec()),
            (b"c".to_vec(), b"3".to_vec()),
        ]
    );
}

#[test]
fn scenario_range_is_half_open() {
    let mut db = open_fresh();
    db.put(b"apple", b"1").unwrap();
    db.put(b"banana", b"2").unwrap();
    db.put(b"cherry", b"3").unwrap();
    db.put(b"date", b"4").unwrap();
    assert_eq!(
        db.range(Some(b"banana"), Some(b"date")).unwrap(),
        vec![(b"banana".to_vec(), b"2".to_vec()), (b"cherry".to_vec(), b"3".to_vec())]
    );
    assert_eq!(db.range(None, Some(b"banana")).unwrap(), vec![(b"apple".to_vec(), b"1".to_vec())]);
    assert_eq!(db.range(Some(b"date"), None).unwrap(), vec![(b"date".to_vec(), b"4".to_vec())]);
    assert_eq!(db.range(None, None).unwrap().len(), 4);
}

#[test]
fn scenario_hundred_keys() {
    let mut db = open_fresh();
    for i in 0..100 {
        db.put(format!("key{:03}", i).as_bytes(), format!("value{}", i).as_bytes()).unwrap();
    }
    for i in 0..100 {
        assert_eq!(
            db.get(format!("key{:03}", i).as_bytes()).unwrap(),
            Some(format!("value{}", i).into_bytes())
        );
    }
    // So few small pairs share one page: the tree is a single leaf.
    assert_eq!(db.stats().tree_height, 1);
}

#[test]
fn scenario_keys_that_fill_pages_grow_the_tree() {
    let mut db = open_fresh();
    for i in 0..100 {
        db.put(format!("key{:03}", i).as_bytes(), &vec![b'v'; 200]).unwrap();
    }
    for i in 0..100 {
        assert_eq!(db.get(format!("key{:03}", i).as_bytes()).unwrap(), Some(vec![b'v'; 200]));
    }
    assert!(db.stats().tree_height >= 2);
}

#[test]
fn scenario_delete_is_final() {
    let mut db = open_fresh();
    db.put(b"k", b"v").unwrap();
    assert!(db.delete(b"k").unwrap());
    assert_eq!(db.get(b"k").unwrap(), None);
    assert!(!db.delete(b"k").unwrap());
}

#[test]
fn scenario_bulk_insert_close_and_reopen() {
    let mut file: Vec<u8> = Vec::new();
    {
        let mut db = Db::open(&file, Config::new("bulk.db")).unwrap();
        for i in 0..10000 {
            db.put(format!("key_{:08}", i).as_bytes(), format!("value_{}", i).as_bytes())
                .unwrap();
        }
        db.flush().unwrap();
        perform(&mut file, db.take_actions());
    }
    let mut db = Db::open(&file, Config::new("bulk.db")).unwrap();
    assert_eq!(db.get(b"key_00004321").unwrap(), Some(b"value_4321".to_vec()));
    assert_eq!(db.get(b"key_00000000").unwrap(), Some(b"value_0".to_vec()));
    assert_eq!(db.get(b"key_00009999").unwrap(), Some(b"value_9999".to_vec()));
    assert_eq!(db.get(b"key_00010000").unwrap(), None);
    assert_eq!(db.iter().unwrap().len(), 10000);
    assert!(db.take_actions().is_empty());
}

#[test]
fn test_put_then_get_for_many_keys_and_updates() {
    let mut db = open_fresh();
    for round in 0..3 {
        for i in 0..400u32 {
            let key = format!("k{}", (i * 7919) % 1000);
            let value = format!("round{}-{}", round, i);
            db.put(key.as_bytes(), value.as_bytes()).unwrap();
            assert_eq!(db.get(key.as_bytes()).unwrap(), Some(value.into_bytes()));
        }
    }
    let all = db.iter().unwrap();
    assert!(all.windows(2).all(|w| w[0].0 < w[1].0));
}

#[test]
fn test_scan_does_not_depend_on_the_order_of_puts() {
    let keys: Vec<String> = (0..300).map(|i| format!("key{:04}", i)).collect();
    let mut forward = open_fresh();
    for k in &keys {
        forward.put(k.as_bytes(), k.as_bytes()).unwrap();
    }
    let mut backward = open_fresh();
    for k in keys.iter().rev() {
        backward.put(k.as_bytes(), k.as_bytes()).unwrap();
    }
    assert_eq!(forward.iter().unwrap(), backward.iter().unwrap());
    assert_eq!(
        forward.range(Some(b"key0100"), Some(b"key0200")).unwrap(),
        backward.range(Some(b"key0100"), Some(b"key0200")).unwrap()
    );
}

#[test]
fn test_put_rejects_sizes_beyond_the_limits() {
    let mut db = open_fresh();
    assert!(matches!(
        db.put(&vec![0u8; 1025], b""),
        Err(StorageError::KeyTooLarge { size: 1025, max: 1024 })
    ));
    assert!(matches!(
        db.put(b"", &vec![0u8; 2049]),
        Err(StorageError::ValueTooLarge { size: 2049, max: 2048 })
    ));
    // The key is judged first.
    assert!(matches!(
        db.put(&vec![0u8; 1025], &vec![0u8; 2049]),
        Err(StorageError::KeyTooLarge { .. })
    ));
    assert_eq!(db.stats().tree_height, 0);
    db.put(b"", b"").unwrap();
    assert_eq!(db.get(b"").unwrap(), Some(Vec::new()));
}

#[test]
fn test_large_pairs() {
    let mut db = open_fresh();
    let mut expected = Vec::new();
    for i in 0..40u8 {
        let mut key = vec![b'k'; 1024];
        key[0] = i;
        let value = vec![i; 900];
        db.put(&key, &value).unwrap();
        expected.push((key, value));
    }
    assert_eq!(db.iter().unwrap(), expected);
    assert!(db.stats().tree_height >= 2);
}

#[test]
fn test_pairs_too_large_to_share_a_page() {
    // A pair of the largest key and value takes three quarters of a
    // page: a leaf holds one of them, and a split cannot make room for a
    // second one on the side of the first.
    let mut db = open_fresh();
    let mut low = vec![b'k'; 1024];
    low[0] = 1;
    let mut high = vec![b'k'; 1024];
    high[0] = 2;
    db.put(&low, &vec![1u8; 2048]).unwrap();
    assert!(matches!(db.put(&high, &vec![2u8; 2048]), Err(StorageError::InvalidOperation(_))));
    // Nothing has changed.
    assert_eq!(db.iter().unwrap(), vec![(low.clone(), vec![1u8; 2048])]);
    assert_eq!(db.stats().tree_height, 1);
    // A pair that goes before it splits the leaf.
    let mut lower = vec![b'k'; 1024];
    lower[0] = 0;
    db.put(&lower, &vec![0u8; 2048]).unwrap();
    assert_eq!(db.stats().tree_height, 2);
    assert_eq!(db.get(&low).unwrap(), Some(vec![1u8; 2048]));
    assert_eq!(db.get(&lower).unwrap(), Some(vec![0u8; 2048]));
}

#[test]
fn test_debug_get_lines() {
    let mut db = open_fresh();
    assert_eq!(db.debug_get(b"a").unwrap(), vec!["Tree is empty (root_page = 0)".to_string()]);
    db.put(b"a", b"1").unwrap();
    db.put(b"b", b"2").unwrap();
    assert_eq!(
        db.debug_get(b"b").unwrap(),
        vec![
            "Searching for key: \"b\"".to_string(),
            "Root page: 1, Height: 1".to_string(),
            "  Page 1: is_leaf=true, cell_count=2".to_string(),
            "    Cell 0: key=a".to_string(),
            "    Cell 1: key=b".to_string(),
            "  FOUND at index 1".to_string(),
        ]
    );
    let lines = db.debug_get(b"zz").unwrap();
    assert_eq!(lines.last().unwrap(), "  NOT FOUND in leaf");
    assert_eq!(lines.len(), 6);
}

#[test]
fn test_debug_get_descends() {
    let mut db = open_fresh();
    for i in 0..60 {
        db.put(format!("key{:03}", i).as_bytes(), &vec![b'v'; 200]).unwrap();
    }
    let lines = db.debug_get(b"key059").unwrap();
    assert_eq!(lines[0], "Searching for key: \"key059\"");
    assert!(lines[1].starts_with("Root page: "));
    assert!(lines[1].ends_with(", Height: 2"));
    assert!(lines[2].contains("is_leaf=false"));
    assert!(lines[3].starts_with("    right_child=") && lines[3].ends_with(" (keys < first sep)"));
    assert!(lines.iter().any(|l| l.starts_with("    Cell 0: sep=key") && l.ends_with(" (keys >= sep)")));
    assert!(lines.iter().any(|l| l.starts_with("  -> Descending to child page ")));
    assert!(lines.last().unwrap().starts_with("  FOUND at index "));
    // Bytes that are no text are shown with the replacement character.
    db.put(&[0xFF, 0xFE], b"x").unwrap();
    let lines = db.debug_get(&[0xFF, 0xFE]).unwrap();
    assert_eq!(lines[0], "Searching for key: \"\u{FFFD}\u{FFFD}\"");
}

#[test]
fn test_sync_on_write_asks_for_syncs() {
    let mut db = Db::open(&[], Config::new("sync.db").sync_on_write(true)).unwrap();
    db.take_actions();
    db.put(b"k", b"v").unwrap();
    let actions = db.take_actions();
    let writes = actions.iter().filter(|a| matches!(a, DiskAction::Write { .. })).count();
    let syncs = actions.iter().filter(|a| matches!(a, DiskAction::SyncData)).count();
    // The new page is zeroed without a sync of its own; the header that
    // counts it, the header that names the root and the page are synced.
    assert_eq!(writes, 4);
    assert_eq!(syncs, 3);
    let mut quiet = Db::open(&[], Config::new("quiet.db")).unwrap();
    quiet.take_actions();
    quiet.put(b"k", b"v").unwrap();
    assert!(quiet.take_actions().iter().all(|a| !matches!(a, DiskAction::SyncData)));
    quiet.flush().unwrap();
    assert!(matches!(quiet.take_actions().last(), Some(DiskAction::SyncAll)));
}

#[test]
fn test_open_rejects_what_is_no_database() {
    assert!(matches!(
        Db::open(&vec![0u8; 4096], Config::new("zero.db")),
        Err(StorageError::InvalidDatabaseFile(_))
    ));
    let mut file = Vec::new();
    let mut db = Db::open(&file, Config::new("ok.db")).unwrap();
    db.put(b"k", b"v").unwrap();
    db.flush().unwrap();
    perform(&mut file, db.take_actions());
    file[36] ^= 1;
    assert!(matches!(
        Db::open(&file, Config::new("ok.db")),
        Err(StorageError::InvalidDatabaseFile(_))
    ));
}

#[test]
fn test_put_replaces_a_value_in_a_full_page() {
    let mut db = open_fresh();
    // Pairs that fill the first leaf almost to the last byte.
    for i in 0..4 {
        let key = format!("key{}", i).into_bytes();
        db.put(&key, &vec![b'a' + i as u8; 1000]).unwrap();
    }
    assert_eq!(db.stats().tree_height, 1);
    // A value of the same length, and a shorter one, take the place of
    // the old one, whatever room the page has left.
    db.put(b"key2", &vec![b'x'; 1000]).unwrap();
    assert_eq!(db.get(b"key2").unwrap(), Some(vec![b'x'; 1000]));
    db.put(b"key2", &vec![b'y'; 10]).unwrap();
    assert_eq!(db.get(b"key2").unwrap(), Some(vec![b'y'; 10]));
    db.put(b"key2", b"").unwrap();
    assert_eq!(db.get(b"key2").unwrap(), Some(Vec::new()));
    for i in [0u8, 1, 3] {
        let key = format!("key{}", i).into_bytes();
        assert_eq!(db.get(&key).unwrap(), Some(vec![b'a' + i; 1000]));
    }
    assert_eq!(db.iter().unwrap().len(), 4);
    assert_eq!(db.stats().tree_height, 1);
}

#[test]
fn test_debug_get_shows_the_key_as_for_debugging() {
    let mut db = open_fresh();
    db.put(b"a\"b\\c\n", b"1").unwrap();
    let lines = db.debug_get(b"a\"b\\c\n").unwrap();
    assert_eq!(lines[0], "Searching for key: \"a\\\"b\\\\c\\n\"");
    // In the list of cells the key stands as it is.
    assert_eq!(lines[3], "    Cell 0: key=a\"b\\c\n");
}
