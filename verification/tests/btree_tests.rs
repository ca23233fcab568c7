use btree_storage::btree::tree::{BTree, TreeNode};
use btree_storage::buffer::pool::BufferPoolImpl;
use btree_storage::error::StorageError;
use btree_storage::storage::disk_manager::{DiskAction, DiskManagerImpl};
use btree_storage::types::page_id::PageId;

fn create_test_btree() -> BTree<DiskManagerImpl> {
    let dm = DiskManagerImpl::open(&[], false).unwrap();
    let pool = BufferPoolImpl::new(dm, 100);
    BTree::new(pool).unwrap()
}

fn create_small_pool_btree(capacity: usize) -> BTree<DiskManagerImpl> {
    let dm = DiskManagerImpl::open(&[], false).unwrap();
    let pool = BufferPoolImpl::new(dm, capacity);
    BTree::new(pool).unwrap()
}

#[test]
fn test_btree_empty() {
    let mut btree = create_test_btree();
    assert_eq!(btree.get(b"key").unwrap(), None);
}

#[test]
fn test_btree_single_insert() {
    let mut btree = create_test_btree();

    btree.put(b"hello", b"world").unwrap();
    assert_eq!(btree.get(b"hello").unwrap(), Some(b"world".to_vec()));
    assert_eq!(btree.get(b"other").unwrap(), None);
}

#[test]
fn test_btree_multiple_inserts() {
    let mut btree = create_test_btree();

    btree.put(b"c", b"3").unwrap();
    btree.put(b"a", b"1").unwrap();
    btree.put(b"b", b"2").unwrap();

    assert_eq!(btree.get(b"a").unwrap(), Some(b"1".to_vec()));
    assert_eq!(btree.get(b"b").unwrap(), Some(b"2".to_vec()));
    assert_eq!(btree.get(b"c").unwrap(), Some(b"3".to_vec()));
}

#[test]
fn test_btree_update() {
    let mut btree = create_test_btree();

    btree.put(b"key", b"value1").unwrap();
    assert_eq!(btree.get(b"key").unwrap(), Some(b"value1".to_vec()));

    btree.put(b"key", b"value2").unwrap();
    assert_eq!(btree.get(b"key").unwrap(), Some(b"value2".to_vec()));
}

#[test]
fn test_btree_delete() {
    let mut btree = create_test_btree();

    btree.put(b"key", b"value").unwrap();
    assert!(btree.delete(b"key").unwrap());
    assert_eq!(btree.get(b"key").unwrap(), None);
    assert!(!btree.delete(b"key").unwrap()); // Already deleted
}

#[test]
fn test_btree_scan() {
    let mut btree = create_test_btree();

    btree.put(b"a", b"1").unwrap();
    btree.put(b"b", b"2").unwrap();
    btree.put(b"c", b"3").unwrap();
    btree.put(b"d", b"4").unwrap();

    // Full scan
    let all = btree.scan(None, None).unwrap();
    assert_eq!(all.len(), 4);

    // Range scan
    let range = btree.scan(Some(b"b"), Some(b"d")).unwrap();
    assert_eq!(range.len(), 2);
    assert_eq!(range[0].0, b"b".to_vec());
    assert_eq!(range[1].0, b"c".to_vec());
}

#[test]
fn test_btree_many_inserts() {
    let mut btree = create_test_btree();

    // Insert enough keys to cause splits
    for i in 0..100 {
        let key = format!("key{:03}", i);
        let value = format!("value{}", i);
        btree.put(key.as_bytes(), value.as_bytes()).unwrap();
    }

    // Verify all keys
    for i in 0..100 {
        let key = format!("key{:03}", i);
        let expected = format!("value{}", i);
        let result = btree.get(key.as_bytes()).unwrap();
        assert_eq!(result, Some(expected.into_bytes()), "Failed for key {}", key);
    }
}

#[test]
fn test_btree_height_and_root() {
    let mut btree = create_test_btree();
    assert_eq!(btree.height(), 0);
    assert_eq!(btree.root_page(), PageId::new(0));
    btree.put(b"hello", b"world").unwrap();
    assert_eq!(btree.height(), 1);
    assert_eq!(btree.root_page(), PageId::new(1));
    assert_eq!(btree.buffer_pool().root_page(), PageId::new(1));
    assert_eq!(btree.buffer_pool().tree_height(), 1);
}

#[test]
fn test_btree_rejects_large_key_and_value() {
    let mut btree = create_test_btree();
    match btree.put(&vec![1u8; 1025], b"v") {
        Err(StorageError::KeyTooLarge { size, max }) => {
            assert_eq!(size, 1025);
            assert_eq!(max, 1024);
        }
        _ => panic!("expected KeyTooLarge"),
    }
    match btree.put(b"k", &vec![1u8; 2049]) {
        Err(StorageError::ValueTooLarge { size, max }) => {
            assert_eq!(size, 2049);
            assert_eq!(max, 2048);
        }
        _ => panic!("expected ValueTooLarge"),
    }
    assert_eq!(btree.height(), 0);
    btree.put(&vec![1u8; 1024], &vec![2u8; 2048]).unwrap();
    assert_eq!(btree.get(&vec![1u8; 1024]).unwrap(), Some(vec![2u8; 2048]));
}

fn pairs_of(n: usize, width: usize) -> Vec<(Vec<u8>, Vec<u8>)> {
    (0..n)
        .map(|i| {
            let key = format!("key_{:08}", i).into_bytes();
            let mut value = format!("value_{}", i).into_bytes();
            value.resize(width.max(value.len()), b'.');
            (key, value)
        })
        .collect()
}

#[test]
fn test_btree_splits_grow_the_tree() {
    let mut btree = create_test_btree();
    let pairs = pairs_of(3000, 1000);
    let mut last_height = 0;
    for (k, v) in &pairs {
        btree.put(k, v).unwrap();
        // The height never goes down, and grows by one at a time.
        assert!(btree.height() == last_height || btree.height() == last_height + 1);
        last_height = btree.height();
    }
    assert!(btree.height() >= 3);
    for (k, v) in &pairs {
        assert_eq!(btree.get(k).unwrap().as_ref(), Some(v));
    }
    assert_eq!(btree.scan(None, None).unwrap(), pairs);
    assert_eq!(btree.get(b"key_").unwrap(), None);
    assert_eq!(btree.get(b"zzz").unwrap(), None);
}

#[test]
fn test_btree_scan_is_sorted_whatever_the_order_of_puts() {
    let pairs = pairs_of(700, 60);
    let mut forward = create_test_btree();
    for (k, v) in &pairs {
        forward.put(k, v).unwrap();
    }
    let mut backward = create_test_btree();
    for (k, v) in pairs.iter().rev() {
        backward.put(k, v).unwrap();
    }
    // A fixed shuffle: stride through the keys.
    let mut strided = create_test_btree();
    let mut i = 0;
    for _ in 0..pairs.len() {
        i = (i + 397) % pairs.len();
        let (k, v) = &pairs[i];
        strided.put(k, v).unwrap();
    }
    let expected = pairs.clone();
    assert_eq!(forward.scan(None, None).unwrap(), expected);
    assert_eq!(backward.scan(None, None).unwrap(), expected);
    assert_eq!(strided.scan(None, None).unwrap(), expected);
}

#[test]
fn test_btree_range_bounds() {
    let mut btree = create_test_btree();
    let pairs = pairs_of(1500, 40);
    for (k, v) in &pairs {
        btree.put(k, v).unwrap();
    }
    let lo = b"key_00000100".to_vec();
    let hi = b"key_00001250".to_vec();
    assert_eq!(btree.scan(Some(&lo), Some(&hi)).unwrap(), pairs[100..1250].to_vec());
    assert_eq!(btree.scan(None, Some(&hi)).unwrap(), pairs[..1250].to_vec());
    assert_eq!(btree.scan(Some(&lo), None).unwrap(), pairs[100..].to_vec());
    // Bounds that are no keys.
    assert_eq!(
        btree.scan(Some(b"key_000001005"), Some(b"key_0000012")).unwrap(),
        pairs[101..120].to_vec()
    );
    // Empty ranges.
    assert!(btree.scan(Some(&hi), Some(&lo)).unwrap().is_empty());
    assert!(btree.scan(Some(&lo), Some(&lo)).unwrap().is_empty());
    assert!(btree.scan(None, Some(b"")).unwrap().is_empty());
    assert!(btree.scan(Some(b"zzz"), None).unwrap().is_empty());
    assert_eq!(btree.scan(Some(b""), Some(b"zzz")).unwrap().len(), 1500);
}

#[test]
fn test_btree_delete_many() {
    let mut btree = create_test_btree();
    let pairs = pairs_of(1200, 50);
    for (k, v) in &pairs {
        btree.put(k, v).unwrap();
    }
    let height = btree.height();
    for (i, (k, _)) in pairs.iter().enumerate() {
        if i % 3 != 0 {
            assert!(btree.delete(k).unwrap());
        }
    }
    // No page is merged: the height stays.
    assert_eq!(btree.height(), height);
    for (i, (k, v)) in pairs.iter().enumerate() {
        if i % 3 == 0 {
            assert_eq!(btree.get(k).unwrap().as_ref(), Some(v));
        } else {
            assert_eq!(btree.get(k).unwrap(), None);
            assert!(!btree.delete(k).unwrap());
        }
    }
    let left: Vec<_> = pairs.iter().cloned().step_by(3).collect();
    assert_eq!(btree.scan(None, None).unwrap(), left);
    // Deleted keys can come back.
    for (k, v) in &pairs {
        btree.put(k, v).unwrap();
    }
    assert_eq!(btree.scan(None, None).unwrap(), pairs);
}

#[test]
fn test_btree_with_a_small_pool() {
    let mut btree = create_small_pool_btree(3);
    let pairs = pairs_of(2500, 80);
    for (k, v) in &pairs {
        btree.put(k, v).unwrap();
    }
    for (k, v) in &pairs {
        assert_eq!(btree.get(k).unwrap().as_ref(), Some(v));
    }
    assert_eq!(btree.scan(None, None).unwrap(), pairs);
}

#[test]
fn test_btree_update_with_a_longer_value() {
    let mut btree = create_test_btree();
    let pairs = pairs_of(300, 10);
    for (k, v) in &pairs {
        btree.put(k, v).unwrap();
    }
    for (k, _) in &pairs {
        match btree.put(k, &vec![b'x'; 30]) {
            Ok(()) => assert_eq!(btree.get(k).unwrap(), Some(vec![b'x'; 30])),
            // The page of the key had no room: nothing has changed.
            Err(StorageError::InvalidOperation(_)) => {
                assert_eq!(btree.get(k).unwrap().map(|v| v.len() != 30), Some(true))
            }
            Err(e) => panic!("unexpected error {:?}", e),
        }
    }
    assert_eq!(btree.scan(None, None).unwrap().len(), 300);
}

fn perform(file: &mut Vec<u8>, actions: Vec<DiskAction>) {
    for action in actions {
        if let DiskAction::Write { offset, data } = action {
            let start = offset as usize;
            if file.len() < start + data.len() {
                file.resize(start + data.len(), 0);
            }
            file[start..start + data.len()].copy_from_slice(&data);
        }
    }
}

#[test]
fn test_btree_reopen_after_flush() {
    let mut file: Vec<u8> = Vec::new();
    let pairs = pairs_of(10000, 0);
    let (height, root) = {
        let dm = DiskManagerImpl::open(&file, false).unwrap();
        let mut btree = BTree::new(BufferPoolImpl::new(dm, 1000)).unwrap();
        for (k, v) in &pairs {
            btree.put(k, v).unwrap();
        }
        btree.flush().unwrap();
        let mut pool = btree.into_buffer_pool();
        perform(&mut file, pool.take_actions());
        (pool.tree_height(), pool.root_page())
    };
    assert!(height >= 2);
    let dm = DiskManagerImpl::open(&file, false).unwrap();
    let mut btree = BTree::new(BufferPoolImpl::new(dm, 1000)).unwrap();
    assert_eq!(btree.height(), height as usize);
    assert_eq!(btree.root_page(), root);
    assert_eq!(btree.get(b"key_00004321").unwrap(), Some(b"value_4321".to_vec()));
    assert_eq!(btree.scan(None, None).unwrap(), pairs);
}

fn page_ids_of(node: &TreeNode, ids: &mut Vec<u32>) {
    ids.push(node.page_id);
    for child in &node.children {
        page_ids_of(child, ids);
    }
}

#[test]
fn test_btree_pages_account_for_every_byte() {
    let mut btree = create_test_btree();
    let pairs = pairs_of(600, 40);
    for (k, v) in &pairs {
        btree.put(k, v).unwrap();
    }
    // Take out a few keys, far enough apart that no page loses more
    // bytes than its header can count.
    for (k, _) in pairs.iter().step_by(50) {
        assert!(btree.delete(k).unwrap());
    }
    assert!(btree.height() >= 2);
    let root = btree.export_tree().unwrap().unwrap();
    let mut ids = Vec::new();
    page_ids_of(&root, &mut ids);
    assert!(ids.len() >= 3);
    let mut pool = btree.into_buffer_pool();
    let mut fragmented_pages = 0;
    for id in ids {
        let guard = pool.fetch_page(PageId::new(id)).unwrap();
        let page = guard.read(&pool).unwrap().clone();
        pool.release(guard);
        let header = page.header();
        let cells = page.get_all_cells().unwrap();
        assert_eq!(cells.len(), header.cell_count as usize);
        for pair in cells.windows(2) {
            assert!(pair[0].key < pair[1].key);
        }
        let used: usize = cells.iter().map(|c| c.encoded_size()).sum();
        assert!(header.fragmented_bytes < 255);
        assert_eq!(
            header.cell_content_start as usize + used + header.fragmented_bytes as usize,
            4096
        );
        if header.fragmented_bytes > 0 {
            fragmented_pages += 1;
        }
    }
    assert!(fragmented_pages > 0);
}
