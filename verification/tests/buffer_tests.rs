use btree_storage::buffer::lru::LruCache;
use btree_storage::buffer::pool::BufferPoolImpl;
use btree_storage::error::StorageError;
use btree_storage::page::cell::Cell;
use btree_storage::storage::disk_manager::{DiskAction, DiskManager, DiskManagerImpl};
use btree_storage::types::page_id::PageId;

#[test]
fn test_lru_basic() {
    let mut cache = LruCache::new(3);

    cache.access(1);
    cache.access(2);
    cache.access(3);

    assert_eq!(cache.lru(), Some(1));

    // Access 1, making it most recent
    cache.access(1);
    assert_eq!(cache.lru(), Some(2));

    // Pop LRU
    assert_eq!(cache.pop_lru(), Some(2));
    assert_eq!(cache.len(), 2);
}

#[test]
fn test_lru_remove() {
    let mut cache = LruCache::new(3);

    cache.access(1);
    cache.access(2);
    cache.access(3);

    cache.remove(2);
    assert_eq!(cache.len(), 2);

    // LRU should still be 1
    assert_eq!(cache.lru(), Some(1));

    // After popping 1, LRU should be 3
    cache.pop_lru();
    assert_eq!(cache.lru(), Some(3));
}

#[test]
fn test_lru_empty() {
    let mut cache = LruCache::new(3);
    assert!(cache.is_empty());
    assert_eq!(cache.lru(), None);
    assert_eq!(cache.pop_lru(), None);
}

#[test]
fn test_lru_order_of_pops() {
    let mut cache = LruCache::new(0);
    for id in [5u32, 6, 7, 8] {
        cache.access(id);
    }
    cache.access(6);
    cache.access(5);
    cache.remove(42);
    assert_eq!(cache.len(), 4);
    // Least recently used first: 7, 8, 6, 5.
    assert_eq!(cache.pop_lru(), Some(7));
    assert_eq!(cache.pop_lru(), Some(8));
    assert_eq!(cache.pop_lru(), Some(6));
    assert_eq!(cache.pop_lru(), Some(5));
    assert_eq!(cache.pop_lru(), None);
    assert!(cache.is_empty());
}

#[test]
fn test_lru_reuses_slots() {
    let mut cache = LruCache::new(2);
    for round in 0..50u32 {
        cache.access(round);
        cache.access(round + 1000);
        cache.remove(round);
        assert_eq!(cache.lru(), Some(round + 1000));
        assert_eq!(cache.pop_lru(), Some(round + 1000));
        assert!(cache.is_empty());
    }
    cache.access(1);
    cache.access(1);
    assert_eq!(cache.len(), 1);
    cache.remove(1);
    cache.remove(1);
    assert_eq!(cache.len(), 0);
}

fn new_pool(capacity: usize) -> BufferPoolImpl<DiskManagerImpl> {
    let disk = DiskManagerImpl::open(&[], false).unwrap();
    BufferPoolImpl::new(disk, capacity)
}

#[test]
fn test_buffer_pool_new_page() {
    let mut pool = new_pool(10);

    let (page_id, guard) = pool.new_page().unwrap();
    assert_eq!(page_id, PageId::new(1));

    {
        let mut page = guard.read(&pool).unwrap().clone();
        page.insert_cell(&Cell::new_leaf(b"key".to_vec(), b"value".to_vec())).unwrap();
        guard.write(&mut pool, page).unwrap();
    }
    pool.release_mut(guard);

    pool.flush_all().unwrap();
}

#[test]
fn test_buffer_pool_fetch() {
    let mut pool = new_pool(10);

    // Create a page
    let page_id = {
        let (page_id, guard) = pool.new_page().unwrap();
        {
            let mut page = guard.read(&pool).unwrap().clone();
            page.insert_cell(&Cell::new_leaf(b"hello".to_vec(), b"world".to_vec())).unwrap();
            guard.write(&mut pool, page).unwrap();
        }
        pool.release_mut(guard);
        page_id
    };

    pool.flush_all().unwrap();

    // Fetch and verify
    let guard = pool.fetch_page(page_id).unwrap();
    let page = guard.read(&pool).unwrap();
    let cell = page.get_cell(0).unwrap();
    assert_eq!(cell.key, b"hello");
    assert_eq!(cell.value, b"world");
}

fn fill_page(pool: &mut BufferPoolImpl<DiskManagerImpl>, key: &[u8]) -> PageId {
    let (page_id, guard) = pool.new_page().unwrap();
    let mut page = guard.read(pool).unwrap().clone();
    page.insert_cell(&Cell::new_leaf(key.to_vec(), b"v".to_vec())).unwrap();
    guard.write(pool, page).unwrap();
    pool.release_mut(guard);
    page_id
}

#[test]
fn test_buffer_pool_evicts_and_reloads() {
    let mut pool = new_pool(2);
    let a = fill_page(&mut pool, b"a");
    let b = fill_page(&mut pool, b"b");
    let c = fill_page(&mut pool, b"c");
    assert_eq!((a, b, c), (PageId::new(1), PageId::new(2), PageId::new(3)));
    assert_eq!(pool.capacity(), 2);
    assert_eq!(pool.page_count(), 4);
    // Every page comes back with what was written to it, whatever was
    // evicted in between.
    for (id, key) in [(a, b"a"), (b, b"b"), (c, b"c"), (a, b"a")] {
        let guard = pool.fetch_page(id).unwrap();
        assert_eq!(guard.page_id(), id);
        assert_eq!(guard.read(&pool).unwrap().get_cell(0).unwrap().key, key);
        pool.release(guard);
    }
}

#[test]
fn test_buffer_pool_exhausted_when_all_pinned() {
    let mut pool = new_pool(2);
    let a = fill_page(&mut pool, b"a");
    let b = fill_page(&mut pool, b"b");
    let c = fill_page(&mut pool, b"c");
    let ga = pool.fetch_page(a).unwrap();
    let gb = pool.fetch_page(b).unwrap();
    assert!(matches!(pool.fetch_page(c), Err(StorageError::BufferPoolExhausted)));
    assert!(matches!(pool.new_page(), Err(StorageError::BufferPoolExhausted)));
    // A pinned page is still there, and a released one makes room.
    assert_eq!(ga.read(&pool).unwrap().get_cell(0).unwrap().key, b"a");
    pool.release(gb);
    let gc = pool.fetch_page(c).unwrap();
    assert_eq!(gc.read(&pool).unwrap().get_cell(0).unwrap().key, b"c");
    pool.release(gc);
    pool.release(ga);
}

#[test]
fn test_buffer_pool_fetch_errors() {
    let mut pool = new_pool(4);
    assert!(matches!(pool.fetch_page(PageId::new(0)), Err(StorageError::InvalidOperation(_))));
    match pool.fetch_page(PageId::new(7)) {
        Err(StorageError::PageNotFound(id)) => assert_eq!(id, PageId::new(7)),
        _ => panic!("expected PageNotFound"),
    }
    assert!(matches!(pool.fetch_page_mut(PageId::new(1)), Err(StorageError::PageNotFound(_))));
}

#[test]
fn test_buffer_pool_dirty_page_is_written_before_it_goes() {
    let mut pool = new_pool(1);
    let a = fill_page(&mut pool, b"a");
    pool.take_actions();
    // Loading another page evicts the first one, which is dirty.
    let b = fill_page(&mut pool, b"b");
    let actions = pool.take_actions();
    let offset_a = a.file_offset(4096);
    assert!(actions.iter().any(|action| matches!(
        action,
        btree_storage::storage::disk_manager::DiskAction::Write { offset, .. } if *offset == offset_a
    )));
    let guard = pool.fetch_page(a).unwrap();
    assert_eq!(guard.read(&pool).unwrap().get_cell(0).unwrap().key, b"a");
    pool.release(guard);
    let guard = pool.fetch_page(b).unwrap();
    assert_eq!(guard.read(&pool).unwrap().get_cell(0).unwrap().key, b"b");
    pool.release(guard);
}

#[test]
fn test_buffer_pool_free_page_is_reused() {
    let mut pool = new_pool(4);
    let a = fill_page(&mut pool, b"a");
    let b = fill_page(&mut pool, b"b");
    pool.free_page(a).unwrap();
    assert!(matches!(pool.free_page(PageId::new(0)), Err(StorageError::InvalidOperation(_))));
    assert_eq!(pool.disk_manager().header().free_page_count, 1);
    assert_eq!(pool.disk_manager().header().first_free_page, a);
    let (again, guard) = pool.new_page().unwrap();
    assert_eq!(again, a);
    assert_eq!(guard.read(&pool).unwrap().cell_count(), 0);
    pool.release_mut(guard);
    let (next, guard) = pool.new_page().unwrap();
    assert_eq!(next, PageId::new(b.value() + 1));
    pool.release_mut(guard);
}

#[test]
fn test_buffer_pool_root_in_header() {
    let mut pool = new_pool(4);
    assert_eq!(pool.root_page(), PageId::new(0));
    assert_eq!(pool.tree_height(), 0);
    pool.set_root_page(PageId::new(3), 2).unwrap();
    assert_eq!(pool.root_page(), PageId::new(3));
    assert_eq!(pool.tree_height(), 2);
    pool.flush_page(PageId::new(9)).unwrap();
}

#[test]
fn test_buffer_pool_without_frames_is_exhausted() {
    let mut pool = new_pool(0);
    assert!(matches!(pool.new_page(), Err(StorageError::BufferPoolExhausted)));
}

#[test]
fn test_buffer_pool_evicts_around_a_pinned_page() {
    let mut pool = new_pool(2);
    let a = fill_page(&mut pool, b"a");
    let b = fill_page(&mut pool, b"b");
    // The older page is pinned, so the younger one has to give way.
    let ga = pool.fetch_page(a).unwrap();
    let c = fill_page(&mut pool, b"c");
    assert_eq!(ga.read(&pool).unwrap().get_cell(0).unwrap().key, b"a");
    let gc = pool.fetch_page(c).unwrap();
    assert_eq!(gc.read(&pool).unwrap().get_cell(0).unwrap().key, b"c");
    pool.release(gc);
    pool.release(ga);
    // What gave way was written first, and comes back.
    let gb = pool.fetch_page(b).unwrap();
    assert_eq!(gb.read(&pool).unwrap().get_cell(0).unwrap().key, b"b");
    pool.release(gb);
}

#[test]
fn test_buffer_pool_evicts_the_least_recently_used_unpinned_page() {
    let mut pool = new_pool(3);
    let one = fill_page(&mut pool, b"1");
    let two = fill_page(&mut pool, b"2");
    let three = fill_page(&mut pool, b"3");
    pool.flush_all().unwrap();
    pool.take_actions();
    // Page one is pinned; then three and two are written to, three first:
    // of the pages without a guard, three is the one used least recently.
    let guard = pool.fetch_page(one).unwrap();
    for id in [three, two] {
        let g = pool.fetch_page_mut(id).unwrap();
        pool.release_mut(g);
    }
    assert!(pool.take_actions().is_empty());
    let (four, g) = pool.new_page().unwrap();
    pool.release_mut(g);
    assert_eq!(four, PageId::new(4));
    // Page three gave way, and was written on its way out; page two was
    // not.
    let offsets: Vec<u64> = pool
        .take_actions()
        .into_iter()
        .filter_map(|action| match action {
            DiskAction::Write { offset, .. } => Some(offset),
            _ => None,
        })
        .collect();
    assert!(offsets.contains(&(3 * 4096)));
    assert!(!offsets.contains(&(2 * 4096)));
    assert!(!offsets.contains(&4096));
    // The next page to give way is two: one is still pinned.
    let g = pool.fetch_page(three).unwrap();
    pool.release(g);
    let offsets: Vec<u64> = pool
        .take_actions()
        .into_iter()
        .filter_map(|action| match action {
            DiskAction::Write { offset, .. } => Some(offset),
            _ => None,
        })
        .collect();
    assert_eq!(offsets, vec![2 * 4096]);
    assert_eq!(guard.read(&pool).unwrap().get_cell(0).unwrap().key, b"1");
    pool.release(guard);
}
