use btree_storage::btree::cursor::Cursor;
use btree_storage::btree::tree::BTree;
use btree_storage::buffer::pool::BufferPoolImpl;
use btree_storage::storage::disk_manager::DiskManagerImpl;

fn tree_of(n: usize, width: usize) -> (BTree<DiskManagerImpl>, Vec<(Vec<u8>, Vec<u8>)>) {
    let dm = DiskManagerImpl::open(&[], false).unwrap();
    let mut tree = BTree::new(BufferPoolImpl::new(dm, 16)).unwrap();
    let mut pairs = Vec::new();
    for i in 0..n {
        // An order of puts that is not the order of the keys.
        let j = (i * 7919) % n;
        let key = format!("key_{:06}", j).into_bytes();
        let mut value = format!("value_{}", j).into_bytes();
        value.resize(width.max(value.len()), b'.');
        tree.put(&key, &value).unwrap();
        pairs.push((key, value));
    }
    pairs.sort();
    (tree, pairs)
}

fn walk(tree: &mut BTree<DiskManagerImpl>, mut cursor: Cursor) -> Vec<(Vec<u8>, Vec<u8>)> {
    let mut seen = Vec::new();
    while cursor.is_valid() {
        seen.push(cursor.current().unwrap());
        let moved = cursor.next(tree).unwrap();
        assert_eq!(moved, cursor.is_valid());
    }
    assert_eq!(cursor.current(), None);
    assert!(!cursor.next(tree).unwrap());
    seen
}

#[test]
fn test_cursor_on_an_empty_tree() {
    let (mut tree, _) = tree_of(0, 0);
    let mut cursor = Cursor::new(&mut tree).unwrap();
    assert!(!cursor.is_valid());
    assert_eq!(cursor.current(), None);
    assert!(!cursor.next(&mut tree).unwrap());
    assert!(!Cursor::seek(&mut tree, b"a").unwrap().is_valid());
    assert_eq!(tree.seek(None, false).unwrap(), None);
}

#[test]
fn test_cursor_walks_a_leaf() {
    let (mut tree, pairs) = tree_of(5, 0);
    assert_eq!(tree.height(), 1);
    let cursor = Cursor::new(&mut tree).unwrap();
    assert_eq!(cursor.current(), Some(pairs[0].clone()));
    assert_eq!(walk(&mut tree, cursor), pairs);
}

#[test]
fn test_cursor_walks_what_a_scan_lists() {
    let (mut tree, pairs) = tree_of(900, 1000);
    assert!(tree.height() >= 3);
    let cursor = Cursor::new(&mut tree).unwrap();
    assert_eq!(walk(&mut tree, cursor), pairs);
    assert_eq!(tree.scan(None, None).unwrap(), pairs);
}

#[test]
fn test_cursor_seek() {
    let (mut tree, pairs) = tree_of(400, 100);
    // At a key that is there.
    let cursor = Cursor::seek(&mut tree, b"key_000123").unwrap();
    assert_eq!(cursor.current(), Some(pairs[123].clone()));
    assert_eq!(walk(&mut tree, cursor), pairs[123..].to_vec());
    // Between two keys.
    let cursor = Cursor::seek(&mut tree, b"key_000123x").unwrap();
    assert_eq!(cursor.current(), Some(pairs[124].clone()));
    // Before the first and after the last.
    assert_eq!(Cursor::seek(&mut tree, b"").unwrap().current(), Some(pairs[0].clone()));
    assert_eq!(Cursor::seek(&mut tree, b"a").unwrap().current(), Some(pairs[0].clone()));
    assert!(!Cursor::seek(&mut tree, b"key_000400").unwrap().is_valid());
    assert!(!Cursor::seek(&mut tree, b"z").unwrap().is_valid());
    // From a key on, and after a key.
    assert_eq!(tree.seek(Some(b"key_000399"), false).unwrap(), Some(pairs[399].clone()));
    assert_eq!(tree.seek(Some(b"key_000399"), true).unwrap(), None);
    assert_eq!(tree.seek(Some(b"key_000010"), true).unwrap(), Some(pairs[11].clone()));
    assert_eq!(tree.seek(None, true).unwrap(), Some(pairs[0].clone()));
}

#[test]
fn test_cursor_passes_over_emptied_pages() {
    let (mut tree, pairs) = tree_of(600, 200);
    assert!(tree.height() >= 2);
    // Take out a long run of keys: whole leaves are left without a cell.
    for (key, _) in &pairs[100..500] {
        assert!(tree.delete(key).unwrap());
    }
    let mut left = pairs[..100].to_vec();
    left.extend_from_slice(&pairs[500..]);
    let cursor = Cursor::new(&mut tree).unwrap();
    assert_eq!(walk(&mut tree, cursor), left);
    let cursor = Cursor::seek(&mut tree, &pairs[250].0).unwrap();
    assert_eq!(cursor.current(), Some(pairs[500].clone()));
}

#[test]
fn test_cursor_keeps_its_place_while_the_tree_changes() {
    let (mut tree, pairs) = tree_of(50, 10);
    let mut cursor = Cursor::seek(&mut tree, &pairs[10].0).unwrap();
    // The entry under the cursor goes, and so does the one after it.
    assert!(tree.delete(&pairs[10].0).unwrap());
    assert!(tree.delete(&pairs[11].0).unwrap());
    assert_eq!(cursor.current(), Some(pairs[10].clone()));
    assert!(cursor.next(&mut tree).unwrap());
    assert_eq!(cursor.current(), Some(pairs[12].clone()));
    // A key comes in right after the cursor.
    tree.put(b"key_000012a", b"new").unwrap();
    assert!(cursor.next(&mut tree).unwrap());
    assert_eq!(cursor.current(), Some((b"key_000012a".to_vec(), b"new".to_vec())));
    assert!(cursor.next(&mut tree).unwrap());
    assert_eq!(cursor.current(), Some(pairs[13].clone()));
}
