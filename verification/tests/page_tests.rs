use btree_storage::error::StorageError;
use btree_storage::page::cell::{Cell, CellType};
use btree_storage::page::header::{PageHeader, INTERIOR_HEADER_SIZE, LEAF_HEADER_SIZE};
use btree_storage::page::slotted::SlottedPage;
use btree_storage::page::PageBuf;
use btree_storage::types::page_id::PageId;
use btree_storage::types::{PageType, PAGE_SIZE};

#[test]
fn test_leaf_cell_roundtrip() {
    let cell = Cell::new_leaf(b"hello".to_vec(), b"world".to_vec());
    let encoded = cell.encode();
    let (decoded, size) = Cell::decode_leaf(&encoded).unwrap();

    assert_eq!(size, encoded.len());
    assert_eq!(decoded.cell_type, CellType::Leaf);
    assert_eq!(decoded.key, b"hello");
    assert_eq!(decoded.value, b"world");
}

#[test]
fn test_interior_cell_roundtrip() {
    let cell = Cell::new_interior(b"separator".to_vec(), PageId::new(42));
    let encoded = cell.encode();
    let (decoded, size) = Cell::decode_interior(&encoded).unwrap();

    assert_eq!(size, encoded.len());
    assert_eq!(decoded.cell_type, CellType::Interior);
    assert_eq!(decoded.key, b"separator");
    assert_eq!(decoded.left_child, PageId::new(42));
}

#[test]
fn test_encoded_size() {
    let cell = Cell::new_leaf(b"key".to_vec(), b"value".to_vec());
    assert_eq!(cell.encoded_size(), cell.encode().len());

    let cell = Cell::new_interior(b"key".to_vec(), PageId::new(100));
    assert_eq!(cell.encoded_size(), cell.encode().len());
}

#[test]
fn test_empty_value() {
    let cell = Cell::new_leaf(b"key".to_vec(), Vec::new());
    let encoded = cell.encode();
    let (decoded, _) = Cell::decode_leaf(&encoded).unwrap();
    assert!(decoded.value.is_empty());
}

#[test]
fn test_cell_exact_bytes() {
    let leaf = Cell::new_leaf(b"ab".to_vec(), b"xyz".to_vec());
    assert_eq!(leaf.encode(), vec![2, 3, b'a', b'b', b'x', b'y', b'z']);
    assert_eq!(leaf.encoded_size(), 7);
    let interior = Cell::new_interior(b"k".to_vec(), PageId::new(0x01020304));
    assert_eq!(interior.encode(), vec![1, 2, 3, 4, 1, b'k']);
    assert_eq!(interior.encoded_size(), 6);
}

#[test]
fn test_cell_decode_ignores_what_follows() {
    let mut bytes = Cell::new_leaf(b"k".to_vec(), b"v".to_vec()).encode();
    let len = bytes.len();
    bytes.extend_from_slice(&[0xAA, 0xBB]);
    let (decoded, used) = Cell::decode_leaf(&bytes).unwrap();
    assert_eq!(used, len);
    assert_eq!(decoded.key, b"k");
    assert_eq!(decoded.value, b"v");
    assert_eq!(decoded.left_child, PageId::invalid());
}

#[test]
fn test_cell_decode_rejects_truncated() {
    let bytes = Cell::new_leaf(b"hello".to_vec(), b"world".to_vec()).encode();
    assert!(Cell::decode_leaf(&bytes[..bytes.len() - 1]).is_none());
    assert!(Cell::decode_leaf(&bytes[..3]).is_none());
    assert!(Cell::decode_leaf(&[]).is_none());
    let bytes = Cell::new_interior(b"sep".to_vec(), PageId::new(9)).encode();
    assert!(Cell::decode_interior(&bytes[..bytes.len() - 1]).is_none());
    assert!(Cell::decode_interior(&bytes[..3]).is_none());
    assert!(Cell::decode_interior(&bytes[..4]).is_none());
}

#[test]
fn test_cell_decode_rejects_huge_length() {
    let mut bytes = vec![0xFFu8; 9];
    bytes.push(0x01);
    bytes.push(0x00);
    assert!(Cell::decode_leaf(&bytes).is_none());
}

#[test]
fn header_test_header_roundtrip() {
    let header = PageHeader {
        page_type: PageType::LeafTable,
        first_freeblock: 100,
        cell_count: 5,
        cell_content_start: 3500,
        fragmented_bytes: 10,
        right_child: 0,
    };

    let mut bytes = [0u8; LEAF_HEADER_SIZE];
    header.write(&mut bytes);

    let read_header = PageHeader::read(&bytes).unwrap();
    assert_eq!(read_header.page_type, PageType::LeafTable);
    assert_eq!(read_header.first_freeblock, 100);
    assert_eq!(read_header.cell_count, 5);
    assert_eq!(read_header.cell_content_start, 3500);
    assert_eq!(read_header.fragmented_bytes, 10);
}

#[test]
fn test_interior_header() {
    let mut header = PageHeader::new_interior();
    header.right_child = 42;

    let mut bytes = [0u8; INTERIOR_HEADER_SIZE];
    header.write(&mut bytes);

    let read_header = PageHeader::read(&bytes).unwrap();
    assert_eq!(read_header.page_type, PageType::InteriorTable);
    assert_eq!(read_header.right_child, 42);
}

#[test]
fn test_free_space() {
    let header = PageHeader::new_leaf();
    // Fresh leaf page: all space after header is free
    assert_eq!(header.free_space(), PAGE_SIZE - LEAF_HEADER_SIZE);
}

#[test]
fn test_header_exact_bytes() {
    let header = PageHeader {
        page_type: PageType::InteriorTable,
        first_freeblock: 0x0102,
        cell_count: 0x0304,
        cell_content_start: 0x0506,
        fragmented_bytes: 7,
        right_child: 0x08090A0B,
    };
    let mut bytes = [0xEEu8; 14];
    header.write(&mut bytes);
    assert_eq!(bytes, [0x02, 1, 2, 3, 4, 5, 6, 7, 8, 9, 10, 11, 0xEE, 0xEE]);
    assert_eq!(header.size(), 12);
    assert_eq!(header.cell_pointer_offset(), 12);
    assert_eq!(header.cell_pointer_array_end(), 12 + 2 * 0x0304);
    assert_eq!(header.free_space(), 0);
}

#[test]
fn test_header_read_rejects_short_or_unknown() {
    assert!(PageHeader::read(&[0x0D, 0, 0, 0, 0, 0, 0]).is_none());
    assert!(PageHeader::read(&[0x01, 0, 0, 0, 0, 0, 0, 0]).is_none());
    let leaf = PageHeader::read(&[0x0D, 0, 0, 0, 1, 0x10, 0, 0, 9, 9, 9, 9]).unwrap();
    assert_eq!(leaf.right_child, 0);
    assert_eq!(leaf.cell_count, 1);
    assert_eq!(leaf.cell_content_start, 4096);
    let short_interior = PageHeader::read(&[0x02, 0, 0, 0, 0, 0x10, 0, 0]).unwrap();
    assert_eq!(short_interior.right_child, 0);
}

#[test]
fn test_page_buf() {
    let zero = PageBuf::new();
    assert_eq!(zero.as_bytes().len(), PAGE_SIZE);
    assert!(zero.as_bytes().iter().all(|b| *b == 0));
    let short = PageBuf::from_bytes(b"abc");
    assert_eq!(&short.as_bytes()[..4], &[b'a', b'b', b'c', 0]);
    assert_eq!(short.as_bytes().len(), PAGE_SIZE);
    let long = PageBuf::from_bytes(&vec![7u8; PAGE_SIZE + 10]);
    assert_eq!(long.as_bytes().len(), PAGE_SIZE);
    assert!(long.as_bytes().iter().all(|b| *b == 7));
    assert_eq!(long.clone().as_bytes(), long.as_bytes());
    assert_eq!(PageBuf::default().as_bytes(), zero.as_bytes());
}

#[test]
fn test_new_leaf_page() {
    let page = SlottedPage::new_leaf();
    assert!(page.is_leaf());
    assert!(!page.is_interior());
    assert_eq!(page.cell_count(), 0);
    assert!(page.free_space() > 0);
}

#[test]
fn test_insert_and_get() {
    let mut page = SlottedPage::new_leaf();

    let cell1 = Cell::new_leaf(b"banana".to_vec(), b"yellow".to_vec());
    let cell2 = Cell::new_leaf(b"apple".to_vec(), b"red".to_vec());
    let cell3 = Cell::new_leaf(b"cherry".to_vec(), b"red".to_vec());

    page.insert_cell(&cell1).unwrap();
    page.insert_cell(&cell2).unwrap();
    page.insert_cell(&cell3).unwrap();

    assert_eq!(page.cell_count(), 3);

    // Cells should be in sorted order
    let c0 = page.get_cell(0).unwrap();
    let c1 = page.get_cell(1).unwrap();
    let c2 = page.get_cell(2).unwrap();

    assert_eq!(c0.key, b"apple");
    assert_eq!(c1.key, b"banana");
    assert_eq!(c2.key, b"cherry");
}

#[test]
fn test_search() {
    let mut page = SlottedPage::new_leaf();

    page.insert_cell(&Cell::new_leaf(b"a".to_vec(), b"1".to_vec()))
        .unwrap();
    page.insert_cell(&Cell::new_leaf(b"c".to_vec(), b"3".to_vec()))
        .unwrap();
    page.insert_cell(&Cell::new_leaf(b"b".to_vec(), b"2".to_vec()))
        .unwrap();

    assert_eq!(page.search(b"a").unwrap(), Some(0));
    assert_eq!(page.search(b"b").unwrap(), Some(1));
    assert_eq!(page.search(b"c").unwrap(), Some(2));
    assert_eq!(page.search(b"d").unwrap(), None);
}

#[test]
fn test_delete() {
    let mut page = SlottedPage::new_leaf();

    page.insert_cell(&Cell::new_leaf(b"a".to_vec(), b"1".to_vec()))
        .unwrap();
    page.insert_cell(&Cell::new_leaf(b"b".to_vec(), b"2".to_vec()))
        .unwrap();
    page.insert_cell(&Cell::new_leaf(b"c".to_vec(), b"3".to_vec()))
        .unwrap();

    let deleted = page.delete_cell(1).unwrap();
    assert_eq!(deleted.key, b"b");
    assert_eq!(page.cell_count(), 2);

    // Remaining cells
    assert_eq!(page.get_cell(0).unwrap().key, b"a".to_vec());
    assert_eq!(page.get_cell(1).unwrap().key, b"c".to_vec());
}

#[test]
fn test_split() {
    let mut page = SlottedPage::new_leaf();

    // Insert several cells
    for i in 0..10 {
        let key = format!("key{:02}", i);
        let value = format!("value{}", i);
        page.insert_cell(&Cell::new_leaf(key.into_bytes(), value.into_bytes()))
            .unwrap();
    }

    assert_eq!(page.cell_count(), 10);

    let (new_page, separator) = page.split().unwrap();

    // Check that cells are distributed
    assert!(page.cell_count() > 0);
    assert!(new_page.cell_count() > 0);
    assert_eq!(page.cell_count() + new_page.cell_count(), 10);

    // Separator should be the first key of new page
    assert_eq!(separator, new_page.get_cell(0).unwrap().key);

    // All keys in old page should be less than separator
    for i in 0..page.cell_count() {
        assert!(page.get_cell(i).unwrap().key < separator);
    }
}

#[test]
fn test_interior_page() {
    let mut page = SlottedPage::new_interior();
    page.set_right_child(PageId::new(100));

    page.insert_cell(&Cell::new_interior(b"m".to_vec(), PageId::new(10)))
        .unwrap();
    page.insert_cell(&Cell::new_interior(b"t".to_vec(), PageId::new(20)))
        .unwrap();

    // Keys < "m" should go to the header child (100)
    assert_eq!(page.find_child(b"a").unwrap(), PageId::new(100));
    // Keys >= "m" and < "t" should go to child 10 (cell "m"'s child)
    assert_eq!(page.find_child(b"m").unwrap(), PageId::new(10));
    assert_eq!(page.find_child(b"n").unwrap(), PageId::new(10));
    // Keys >= "t" should go to child 20 (cell "t"'s child)
    assert_eq!(page.find_child(b"t").unwrap(), PageId::new(20));
    assert_eq!(page.find_child(b"z").unwrap(), PageId::new(20));
}

#[test]
fn test_from_bytes_roundtrip() {
    let mut page = SlottedPage::new_leaf();
    page.insert_cell(&Cell::new_leaf(b"test".to_vec(), b"data".to_vec()))
        .unwrap();

    let bytes = page.as_bytes();
    let restored = SlottedPage::from_bytes(bytes).unwrap();

    assert_eq!(restored.cell_count(), 1);
    let cell = restored.get_cell(0).unwrap();
    assert_eq!(cell.key, b"test");
    assert_eq!(cell.value, b"data");
}

fn leaf_of(pairs: &[(&str, &str)]) -> SlottedPage {
    let mut page = SlottedPage::new_leaf();
    for (k, v) in pairs {
        page.insert_cell(&Cell::new_leaf(k.as_bytes().to_vec(), v.as_bytes().to_vec()))
            .unwrap();
    }
    page
}

fn keys_of(page: &SlottedPage) -> Vec<Vec<u8>> {
    page.get_all_cells().unwrap().into_iter().map(|c| c.key).collect()
}

#[test]
fn test_fresh_page_layout() {
    let leaf = SlottedPage::new_leaf();
    assert_eq!(leaf.page_type(), PageType::LeafTable);
    assert_eq!(leaf.free_space(), PAGE_SIZE - 8 - 2);
    assert_eq!(leaf.header().cell_content_start, 4096);
    assert_eq!(leaf.as_bytes().len(), PAGE_SIZE);
    assert_eq!(&leaf.as_bytes()[..8], &[0x0D, 0, 0, 0, 0, 0x10, 0, 0]);
    let interior = SlottedPage::new_interior();
    assert_eq!(interior.page_type(), PageType::InteriorTable);
    assert!(interior.is_interior());
    assert_eq!(interior.free_space(), PAGE_SIZE - 12 - 2);
    assert_eq!(interior.right_child(), PageId::new(0));
}

#[test]
fn test_insert_returns_position_and_moves_content_start() {
    let mut page = SlottedPage::new_leaf();
    assert_eq!(page.insert_cell(&Cell::new_leaf(b"m".to_vec(), b"1".to_vec())).unwrap(), 0);
    assert_eq!(page.insert_cell(&Cell::new_leaf(b"a".to_vec(), b"2".to_vec())).unwrap(), 0);
    assert_eq!(page.insert_cell(&Cell::new_leaf(b"z".to_vec(), b"3".to_vec())).unwrap(), 2);
    assert_eq!(page.insert_cell(&Cell::new_leaf(b"n".to_vec(), b"4".to_vec())).unwrap(), 2);
    assert_eq!(keys_of(&page), vec![b"a".to_vec(), b"m".to_vec(), b"n".to_vec(), b"z".to_vec()]);
    assert_eq!(page.header().cell_count, 4);
    assert_eq!(page.header().cell_content_start, 4096 - 4 * 4);
    assert_eq!(page.free_space(), 4096 - 16 - 8 - 8 - 2);
}

#[test]
fn test_insert_existing_key_inserts_nothing() {
    let mut page = leaf_of(&[("a", "1"), ("b", "2"), ("c", "3")]);
    let before = page.as_bytes().to_vec();
    let pos = page.insert_cell(&Cell::new_leaf(b"b".to_vec(), b"other".to_vec())).unwrap();
    assert_eq!(pos, 1);
    assert_eq!(page.cell_count(), 3);
    assert_eq!(page.get_cell(1).unwrap().value, b"2");
    assert_eq!(page.as_bytes(), &before[..]);
}

#[test]
fn test_insert_page_full() {
    let mut page = SlottedPage::new_leaf();
    let big = vec![7u8; 2000];
    page.insert_cell(&Cell::new_leaf(b"a".to_vec(), big.clone())).unwrap();
    page.insert_cell(&Cell::new_leaf(b"b".to_vec(), big.clone())).unwrap();
    let before = page.as_bytes().to_vec();
    let cell = Cell::new_leaf(b"c".to_vec(), big);
    let size = cell.encoded_size();
    let free = page.free_space();
    assert!(!page.can_fit(size));
    match page.insert_cell(&cell) {
        Err(StorageError::PageFull { page_id, needed, available }) => {
            assert_eq!(page_id, PageId::invalid());
            assert_eq!(needed, size + 2);
            assert_eq!(available, free);
        }
        other => panic!("expected PageFull, got {:?}", other.map(|_| ())),
    }
    assert_eq!(page.as_bytes(), &before[..]);
}

#[test]
fn test_insert_exact_fit() {
    let mut page = SlottedPage::new_leaf();
    let free = page.free_space();
    // 1 byte key length, 2 bytes value length, 1 byte key.
    let value = vec![1u8; free - 4];
    let cell = Cell::new_leaf(b"k".to_vec(), value);
    assert_eq!(cell.encoded_size(), free);
    assert!(page.can_fit(cell.encoded_size()));
    page.insert_cell(&cell).unwrap();
    assert_eq!(page.free_space(), 0);
    assert!(!page.can_fit(1));
}

#[test]
fn test_insert_wrong_kind_is_refused() {
    let mut leaf = SlottedPage::new_leaf();
    assert!(matches!(
        leaf.insert_cell(&Cell::new_interior(b"k".to_vec(), PageId::new(1))),
        Err(StorageError::InvalidOperation(_))
    ));
    let mut interior = SlottedPage::new_interior();
    assert!(matches!(
        interior.insert_cell(&Cell::new_leaf(b"k".to_vec(), b"v".to_vec())),
        Err(StorageError::InvalidOperation(_))
    ));
    assert_eq!(leaf.cell_count(), 0);
    assert_eq!(interior.cell_count(), 0);
}

#[test]
fn test_get_cell_out_of_bounds() {
    let page = leaf_of(&[("a", "1")]);
    assert!(matches!(page.get_cell(1), Err(StorageError::InvalidOperation(_))));
    assert!(matches!(
        SlottedPage::new_leaf().get_cell(0),
        Err(StorageError::InvalidOperation(_))
    ));
}

#[test]
fn test_find_child_on_leaf_and_empty_interior() {
    let leaf = SlottedPage::new_leaf();
    assert!(matches!(leaf.find_child(b"a"), Err(StorageError::InvalidOperation(_))));
    let mut interior = SlottedPage::new_interior();
    interior.set_right_child(PageId::new(5));
    assert_eq!(interior.find_child(b"anything").unwrap(), PageId::new(5));
    assert_eq!(interior.find_child(b"").unwrap(), PageId::new(5));
}

#[test]
fn test_set_right_child_on_leaf_changes_nothing() {
    let mut leaf = leaf_of(&[("a", "1")]);
    let before = leaf.as_bytes().to_vec();
    leaf.set_right_child(PageId::new(9));
    assert_eq!(leaf.right_child(), PageId::new(0));
    assert_eq!(leaf.as_bytes(), &before[..]);
}

#[test]
fn test_delete_counts_fragmented_bytes() {
    let mut page = leaf_of(&[("a", "1"), ("b", "2"), ("c", "3")]);
    let start = page.header().cell_content_start;
    page.delete_cell(0).unwrap();
    assert_eq!(page.header().fragmented_bytes, 4);
    assert_eq!(page.header().cell_content_start, start);
    assert_eq!(keys_of(&page), vec![b"b".to_vec(), b"c".to_vec()]);
    assert!(matches!(page.delete_cell(2), Err(StorageError::InvalidOperation(_))));
    assert_eq!(page.cell_count(), 2);
}

#[test]
fn test_delete_fragmented_bytes_stop_at_255() {
    let mut page = SlottedPage::new_leaf();
    page.insert_cell(&Cell::new_leaf(b"a".to_vec(), vec![0u8; 200])).unwrap();
    page.insert_cell(&Cell::new_leaf(b"b".to_vec(), vec![0u8; 200])).unwrap();
    page.delete_cell(0).unwrap();
    assert_eq!(page.header().fragmented_bytes, 204);
    page.delete_cell(0).unwrap();
    assert_eq!(page.header().fragmented_bytes, 255);
    assert_eq!(page.cell_count(), 0);
}

#[test]
fn test_update_cell() {
    let mut page = leaf_of(&[("a", "1"), ("b", "2"), ("c", "3")]);
    page.update_cell(1, b"two").unwrap();
    let cells = page.get_all_cells().unwrap();
    assert_eq!(cells.len(), 3);
    assert_eq!(cells[0].value, b"1");
    assert_eq!(cells[1].key, b"b");
    assert_eq!(cells[1].value, b"two");
    assert_eq!(cells[2].value, b"3");
    assert!(matches!(page.update_cell(3, b"x"), Err(StorageError::InvalidOperation(_))));
    let mut interior = SlottedPage::new_interior();
    interior.insert_cell(&Cell::new_interior(b"k".to_vec(), PageId::new(1))).unwrap();
    assert!(matches!(interior.update_cell(0, b"x"), Err(StorageError::InvalidOperation(_))));
}

#[test]
fn test_update_cell_that_does_not_fit_leaves_page() {
    let mut page = SlottedPage::new_leaf();
    page.insert_cell(&Cell::new_leaf(b"a".to_vec(), vec![1u8; 2000])).unwrap();
    page.insert_cell(&Cell::new_leaf(b"b".to_vec(), vec![2u8; 2000])).unwrap();
    let before = page.as_bytes().to_vec();
    assert!(matches!(
        page.update_cell(0, &vec![3u8; 2040]),
        Err(StorageError::PageFull { .. })
    ));
    assert_eq!(page.as_bytes(), &before[..]);
    assert_eq!(page.get_cell(0).unwrap().value, vec![1u8; 2000]);
}

#[test]
fn test_split_leaf_halves() {
    let mut page = leaf_of(&[("a", "1"), ("b", "2"), ("c", "3"), ("d", "4"), ("e", "5")]);
    let (right, separator) = page.split().unwrap();
    assert_eq!(separator, b"c");
    assert_eq!(keys_of(&page), vec![b"a".to_vec(), b"b".to_vec()]);
    assert_eq!(keys_of(&right), vec![b"c".to_vec(), b"d".to_vec(), b"e".to_vec()]);
    assert!(right.is_leaf());
    assert_eq!(page.header().fragmented_bytes, 0);
    assert_eq!(page.header().cell_content_start, 4096 - 8);
    assert_eq!(right.header().cell_content_start, 4096 - 12);
}

#[test]
fn test_split_interior_promotes_separator() {
    let mut page = SlottedPage::new_interior();
    page.set_right_child(PageId::new(100));
    for (k, child) in [("b", 1u32), ("d", 2), ("f", 3), ("h", 4)] {
        page.insert_cell(&Cell::new_interior(k.as_bytes().to_vec(), PageId::new(child)))
            .unwrap();
    }
    let (right, separator) = page.split().unwrap();
    assert_eq!(separator, b"f");
    assert_eq!(keys_of(&page), vec![b"b".to_vec(), b"d".to_vec()]);
    assert_eq!(page.right_child(), PageId::new(100));
    assert_eq!(keys_of(&right), vec![b"h".to_vec()]);
    assert_eq!(right.right_child(), PageId::new(3));
    assert!(right.is_interior());
    assert_eq!(right.get_cell(0).unwrap().left_child, PageId::new(4));
    assert_eq!(page.cell_count() + right.cell_count(), 3);
}

#[test]
fn test_split_small_pages() {
    let mut one = leaf_of(&[("a", "1")]);
    let (right, separator) = one.split().unwrap();
    assert_eq!(separator, b"a");
    assert_eq!(one.cell_count(), 0);
    assert_eq!(right.cell_count(), 1);
    let mut empty = SlottedPage::new_leaf();
    assert!(matches!(empty.split(), Err(StorageError::InvalidOperation(_))));
}

#[test]
fn test_defragment_reclaims_space() {
    let mut page = leaf_of(&[("a", "1"), ("b", "2"), ("c", "3")]);
    let free_full = page.free_space();
    page.delete_cell(1).unwrap();
    assert_eq!(page.free_space(), free_full + 2);
    page.defragment().unwrap();
    assert_eq!(page.free_space(), free_full + 2 + 4);
    assert_eq!(page.header().fragmented_bytes, 0);
    assert_eq!(keys_of(&page), vec![b"a".to_vec(), b"c".to_vec()]);
    assert_eq!(page.get_cell(1).unwrap().value, b"3");
}

#[test]
fn test_defragment_keeps_interior_child() {
    let mut page = SlottedPage::new_interior();
    page.set_right_child(PageId::new(77));
    page.insert_cell(&Cell::new_interior(b"k".to_vec(), PageId::new(5))).unwrap();
    page.insert_cell(&Cell::new_interior(b"m".to_vec(), PageId::new(6))).unwrap();
    page.delete_cell(0).unwrap();
    page.defragment().unwrap();
    assert_eq!(page.right_child(), PageId::new(77));
    assert_eq!(page.cell_count(), 1);
    assert_eq!(page.find_child(b"z").unwrap(), PageId::new(6));
}

#[test]
fn test_from_bytes_rejects_damage() {
    let page = leaf_of(&[("a", "1"), ("b", "2")]);
    let good = page.as_bytes().to_vec();
    assert!(SlottedPage::from_bytes(&good).is_ok());

    let mut bad_tag = good.clone();
    bad_tag[0] = 0x01;
    assert!(matches!(SlottedPage::from_bytes(&bad_tag), Err(StorageError::InvalidPage(_))));

    // A pointer that leaves the content area.
    let mut bad_pointer = good.clone();
    bad_pointer[8] = 0;
    bad_pointer[9] = 4;
    assert!(matches!(SlottedPage::from_bytes(&bad_pointer), Err(StorageError::Corruption(_))));

    // Pointers swapped: keys out of order.
    let mut swapped = good.clone();
    swapped.swap(8, 10);
    swapped.swap(9, 11);
    assert!(matches!(SlottedPage::from_bytes(&swapped), Err(StorageError::Corruption(_))));

    // More cells than pointers can be.
    let mut count = good.clone();
    count[3] = 0xFF;
    count[4] = 0xFF;
    assert!(matches!(SlottedPage::from_bytes(&count), Err(StorageError::Corruption(_))));

    // A zeroed page is a free page without cells.
    let zero = SlottedPage::from_bytes(&vec![0u8; PAGE_SIZE]).unwrap();
    assert_eq!(zero.page_type(), PageType::Free);
    assert_eq!(zero.cell_count(), 0);
    assert!(matches!(SlottedPage::from_bytes(&[]), Ok(_)));
}

#[test]
fn test_clone_is_independent() {
    let page = leaf_of(&[("a", "1")]);
    let mut copy = page.clone();
    copy.insert_cell(&Cell::new_leaf(b"b".to_vec(), b"2".to_vec())).unwrap();
    assert_eq!(page.cell_count(), 1);
    assert_eq!(copy.cell_count(), 2);
}

#[test]
fn test_index_errors_name_the_index() {
    let mut page = leaf_of(&[("a", "1"), ("b", "2")]);
    match page.get_cell(7) {
        Err(StorageError::InvalidOperation(text)) => {
            assert_eq!(text, "cell index 7 out of bounds (count: 2)")
        }
        _ => panic!("expected InvalidOperation"),
    }
    match page.delete_cell(2) {
        Err(StorageError::InvalidOperation(text)) => assert_eq!(text, "delete index 2 out of bounds"),
        _ => panic!("expected InvalidOperation"),
    }
    match page.update_cell(12345, b"x") {
        Err(StorageError::InvalidOperation(text)) => {
            assert_eq!(text, "cell index 12345 out of bounds (count: 2)")
        }
        _ => panic!("expected InvalidOperation"),
    }
    assert_eq!(page.cell_count(), 2);
}

#[test]
fn test_defragment_twice_changes_no_byte() {
    let mut page = leaf_of(&[("a", "1"), ("b", "22"), ("c", "333"), ("d", "4444")]);
    page.delete_cell(1).unwrap();
    page.update_cell(0, b"11").unwrap();
    assert!(page.header().fragmented_bytes > 0);
    page.defragment().unwrap();
    let once = page.as_bytes().to_vec();
    assert_eq!(page.header().fragmented_bytes, 0);
    page.defragment().unwrap();
    assert_eq!(page.as_bytes(), &once[..]);
    // The packed page is the page that the same cells make from scratch.
    let scratch = leaf_of(&[("a", "11"), ("c", "333"), ("d", "4444")]);
    assert_eq!(page.as_bytes(), scratch.as_bytes());
    // The first cell stands at the end of the page.
    assert_eq!(&once[4096 - 5..], &[1, 2, b'a', b'1', b'1']);
}
