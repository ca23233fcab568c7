use btree_storage::error::StorageError;
use btree_storage::storage::crc::crc32_bitwise;
use btree_storage::storage::file_header::{FileHeader, FILE_HEADER_SIZE};
use btree_storage::types::page_id::PageId;
use btree_storage::types::PAGE_SIZE;

#[test]
fn file_header_test_header_roundtrip() {
    let header = FileHeader {
        page_size: PAGE_SIZE as u32,
        page_count: 100,
        first_free_page: PageId::new(50),
        free_page_count: 5,
        root_page: PageId::new(1),
        tree_height: 3,
    };

    let mut bytes = vec![0u8; FILE_HEADER_SIZE];
    header.write(&mut bytes);

    let restored = FileHeader::read(&bytes).unwrap();
    assert_eq!(restored.page_size, header.page_size);
    assert_eq!(restored.page_count, header.page_count);
    assert_eq!(restored.first_free_page, header.first_free_page);
    assert_eq!(restored.free_page_count, header.free_page_count);
    assert_eq!(restored.root_page, header.root_page);
    assert_eq!(restored.tree_height, header.tree_height);
}

#[test]
fn test_invalid_magic() {
    let mut bytes = vec![0u8; FILE_HEADER_SIZE];
    bytes[0..16].copy_from_slice(b"InvalidMagic0000");

    assert!(FileHeader::read(&bytes).is_err());
}

#[test]
fn test_checksum_validation() {
    let header = FileHeader::new();
    let mut bytes = vec![0u8; FILE_HEADER_SIZE];
    header.write(&mut bytes);

    // Corrupt a byte
    bytes[20] ^= 0xFF;

    assert!(FileHeader::read(&bytes).is_err());
}

#[test]
fn test_allocate_page() {
    let mut header = FileHeader::new();
    assert_eq!(header.page_count, 1);

    let first = header.allocate_page();
    assert_eq!(first, PageId::new(1));
    assert_eq!(header.page_count, 2);

    let second = header.allocate_page();
    assert_eq!(second, PageId::new(2));
    assert_eq!(header.page_count, 3);
}

#[test]
fn test_file_header_exact_bytes() {
    let header = FileHeader::new();
    let mut bytes = vec![0xEEu8; FILE_HEADER_SIZE + 3];
    header.write(&mut bytes);
    assert_eq!(&bytes[0..16], b"BTreeStorageV01\0");
    assert_eq!(&bytes[16..20], &[0, 0, 0x10, 0]);
    assert_eq!(&bytes[20..24], &[0, 0, 0, 1]);
    assert_eq!(&bytes[24..40], &[0u8; 16]);
    // The checksum is the CRC-32 of the forty bytes before it.
    let sum = crc32fast::hash(&bytes[0..40]);
    assert_eq!(&bytes[40..44], &sum.to_be_bytes());
    assert_ne!(&bytes[40..44], &bytes[36..40]);
    assert!(bytes[44..FILE_HEADER_SIZE].iter().all(|b| *b == 0));
    assert_eq!(&bytes[FILE_HEADER_SIZE..], &[0xEE, 0xEE, 0xEE]);
}

#[test]
fn test_file_header_errors_by_kind() {
    assert!(matches!(
        FileHeader::read(&[0u8; 43]),
        Err(StorageError::InvalidDatabaseFile(_))
    ));
    let mut bytes = vec![0u8; FILE_HEADER_SIZE];
    FileHeader::new().write(&mut bytes);
    let mut magic = bytes.clone();
    magic[3] ^= 1;
    assert!(matches!(FileHeader::read(&magic), Err(StorageError::InvalidDatabaseFile(_))));
    let mut sum = bytes.clone();
    sum[41] ^= 1;
    assert!(matches!(FileHeader::read(&sum), Err(StorageError::InvalidDatabaseFile(_))));
    // Another page size with a checksum that matches it.
    let other = FileHeader { page_size: 8192, ..FileHeader::new() };
    let mut bytes = vec![0u8; FILE_HEADER_SIZE];
    other.write(&mut bytes);
    assert!(matches!(FileHeader::read(&bytes), Err(StorageError::InvalidDatabaseFile(_))));
}

#[test]
fn test_file_header_any_flipped_byte_fails() {
    let header = FileHeader {
        page_size: PAGE_SIZE as u32,
        page_count: 7,
        first_free_page: PageId::new(3),
        free_page_count: 1,
        root_page: PageId::new(2),
        tree_height: 2,
    };
    let mut bytes = vec![0u8; FILE_HEADER_SIZE];
    header.write(&mut bytes);
    assert!(FileHeader::read(&bytes).is_ok());
    for i in 0..44 {
        for flip in [0x01u8, 0x80, 0xFF] {
            let mut damaged = bytes.clone();
            damaged[i] ^= flip;
            assert!(
                matches!(FileHeader::read(&damaged), Err(StorageError::InvalidDatabaseFile(_))),
                "byte {} flipped by {}",
                i,
                flip
            );
        }
    }
}

#[test]
fn test_file_header_default_is_new() {
    let a = FileHeader::default();
    let b = FileHeader::new();
    assert_eq!(a.page_count, b.page_count);
    assert_eq!(a.page_size as usize, PAGE_SIZE);
    assert_eq!(a.root_page, PageId::new(0));
    assert_eq!(a.tree_height, 0);
}

use btree_storage::storage::disk_manager::{DiskAction, DiskManager, DiskManagerImpl};
use btree_storage::storage::freelist::FreeList;

#[test]
fn test_freelist_operations() {
    let mut fl = FreeList::new();
    assert!(fl.is_empty());
    assert_eq!(fl.pop(), None);

    fl.push(PageId::new(5));
    fl.push(PageId::new(10));
    assert_eq!(fl.len(), 2);

    assert_eq!(fl.pop(), Some(PageId::new(5)));
    assert_eq!(fl.pop(), Some(PageId::new(10)));
    assert_eq!(fl.pop(), None);
}

#[test]
fn test_freelist_page_ids() {
    let mut fl = FreeList::default();
    fl.push(PageId::new(3));
    fl.push(PageId::new(1));
    fl.push(PageId::new(2));
    assert_eq!(fl.page_ids(), vec![PageId::new(3), PageId::new(1), PageId::new(2)]);
    fl.pop();
    assert_eq!(fl.page_ids(), vec![PageId::new(1), PageId::new(2)]);
    assert!(!fl.is_empty());
}

/// Performs the actions on a file held in memory.
fn perform(file: &mut Vec<u8>, actions: Vec<DiskAction>) {
    for action in actions {
        if let DiskAction::Write { offset, data } = action {
            let start = offset as usize;
            if file.len() < start + data.len() {
                file.resize(start + data.len(), 0);
            }
            file[start..start + data.len()].copy_from_slice(&data);
        }
    }
}

#[test]
fn test_create_new_database() {
    let mut dm = DiskManagerImpl::open(&[], false).unwrap();
    let header = dm.header();

    assert_eq!(header.page_count, 1);
    assert_eq!(header.root_page, PageId::new(0));
    assert_eq!(header.page_size, PAGE_SIZE as u32);

    // The header page is to be written and made durable.
    let actions = dm.take_actions();
    assert_eq!(actions.len(), 2);
    match &actions[0] {
        DiskAction::Write { offset, data } => {
            assert_eq!(*offset, 0);
            assert_eq!(data.len(), PAGE_SIZE);
            assert!(FileHeader::read(data).is_ok());
        }
        _ => panic!("expected a write"),
    }
    assert!(matches!(actions[1], DiskAction::SyncAll));
    assert!(dm.take_actions().is_empty());
}

#[test]
fn test_allocate_and_write_page() {
    let mut dm = DiskManagerImpl::open(&[], false).unwrap();

    let page_id = dm.allocate_page().unwrap();
    assert_eq!(page_id, PageId::new(1));

    let mut data = vec![0u8; PAGE_SIZE];
    data[0..5].copy_from_slice(b"hello");
    dm.write_page(page_id, &data).unwrap();

    let read_data = dm.read_page(page_id).unwrap();
    assert_eq!(&read_data.as_bytes()[0..5], b"hello");
}

#[test]
fn test_reopen_database() {
    let mut file: Vec<u8> = Vec::new();

    // Create and write
    {
        let mut dm = DiskManagerImpl::open(&file, true).unwrap();
        let page_id = dm.allocate_page().unwrap();
        let mut data = vec![0u8; PAGE_SIZE];
        data[0..4].copy_from_slice(b"test");
        dm.write_page(page_id, &data).unwrap();
        dm.set_root_page(page_id, 1).unwrap();
        perform(&mut file, dm.take_actions());
    }

    // Reopen and verify
    {
        let mut dm = DiskManagerImpl::open(&file, false).unwrap();
        let header = dm.header();
        assert_eq!(header.page_count, 2);
        assert_eq!(header.root_page, PageId::new(1));

        let read_data = dm.read_page(PageId::new(1)).unwrap();
        assert_eq!(&read_data.as_bytes()[0..4], b"test");
        assert!(dm.take_actions().is_empty());
    }
}

#[test]
fn test_free_list() {
    let mut dm = DiskManagerImpl::open(&[], false).unwrap();

    let first = dm.allocate_page().unwrap();
    let second = dm.allocate_page().unwrap();
    let third = dm.allocate_page().unwrap();

    assert_eq!(first, PageId::new(1));
    assert_eq!(second, PageId::new(2));
    assert_eq!(third, PageId::new(3));

    // Deallocate second
    dm.deallocate_page(second).unwrap();

    // Next allocation should reuse second
    let fourth = dm.allocate_page().unwrap();
    assert_eq!(fourth, PageId::new(2));
}

#[test]
fn test_disk_manager_rejects_bad_requests() {
    let mut dm = DiskManagerImpl::open(&[], false).unwrap();
    let page = vec![0u8; PAGE_SIZE];
    assert!(matches!(dm.read_page(PageId::new(0)), Err(StorageError::InvalidOperation(_))));
    match dm.read_page(PageId::new(1)) {
        Err(StorageError::PageNotFound(id)) => assert_eq!(id, PageId::new(1)),
        _ => panic!("expected PageNotFound"),
    }
    assert!(matches!(dm.write_page(PageId::new(0), &page), Err(StorageError::InvalidOperation(_))));
    assert!(matches!(
        dm.write_page(PageId::new(1), &page[1..]),
        Err(StorageError::InvalidOperation(_))
    ));
    assert!(matches!(dm.deallocate_page(PageId::new(0)), Err(StorageError::InvalidOperation(_))));
    dm.sync().unwrap();
}

#[test]
fn test_disk_manager_actions_in_order() {
    let mut dm = DiskManagerImpl::open(&[], true).unwrap();
    dm.take_actions();
    let id = dm.allocate_page().unwrap();
    let actions = dm.take_actions();
    // The new page is zeroed, then the header is written and synced.
    assert_eq!(actions.len(), 3);
    match &actions[0] {
        DiskAction::Write { offset, data } => {
            assert_eq!(*offset, 4096);
            assert!(data.iter().all(|b| *b == 0) && data.len() == PAGE_SIZE);
        }
        _ => panic!("expected a write"),
    }
    match &actions[1] {
        DiskAction::Write { offset, data } => {
            assert_eq!(*offset, 0);
            assert_eq!(FileHeader::read(data).unwrap().page_count, 2);
        }
        _ => panic!("expected a write"),
    }
    assert!(matches!(actions[2], DiskAction::SyncData));

    let mut data = vec![7u8; PAGE_SIZE];
    data[0] = 1;
    dm.write_page(id, &data).unwrap();
    let actions = dm.take_actions();
    assert_eq!(actions.len(), 2);
    match &actions[0] {
        DiskAction::Write { offset, data: written } => {
            assert_eq!(*offset, 4096);
            assert_eq!(written, &data);
        }
        _ => panic!("expected a write"),
    }
    assert!(matches!(actions[1], DiskAction::SyncData));

    dm.sync().unwrap();
    let actions = dm.take_actions();
    assert_eq!(actions.len(), 3);
    assert!(matches!(actions[2], DiskAction::SyncAll));
}

#[test]
fn test_disk_manager_open_rejects_damaged_header() {
    let mut file = Vec::new();
    let mut dm = DiskManagerImpl::open(&file, false).unwrap();
    dm.allocate_page().unwrap();
    perform(&mut file, dm.take_actions());
    assert_eq!(file.len(), 2 * PAGE_SIZE);
    assert!(DiskManagerImpl::open(&file, false).is_ok());
    let mut damaged = file.clone();
    damaged[21] ^= 0x40;
    assert!(matches!(
        DiskManagerImpl::open(&damaged, false),
        Err(StorageError::InvalidDatabaseFile(_))
    ));
    let mut damaged = file.clone();
    damaged[0] = b'X';
    assert!(matches!(
        DiskManagerImpl::open(&damaged, false),
        Err(StorageError::InvalidDatabaseFile(_))
    ));
    // A file that ends before a page that the header counts.
    let mut short = DiskManagerImpl::open(&file[..PAGE_SIZE + 10], false).unwrap();
    assert!(matches!(short.read_page(PageId::new(1)), Err(StorageError::Io(_))));
}

#[test]
fn test_disk_manager_free_counts_in_header() {
    let mut dm = DiskManagerImpl::open(&[], false).unwrap();
    let a = dm.allocate_page().unwrap();
    let b = dm.allocate_page().unwrap();
    dm.deallocate_page(b).unwrap();
    dm.deallocate_page(a).unwrap();
    assert_eq!(dm.header().free_page_count, 2);
    assert_eq!(dm.header().first_free_page, a);
    assert_eq!(dm.header().page_count, 3);
    // First freed, first reused.
    assert_eq!(dm.allocate_page().unwrap(), b);
    assert_eq!(dm.allocate_page().unwrap(), a);
    assert_eq!(dm.allocate_page().unwrap(), PageId::new(3));
}

#[test]
fn test_disk_manager_read_of_a_page_that_the_file_lacks() {
    // A header that counts three pages, on a file that holds the header
    // alone.
    let mut header = FileHeader::new();
    header.page_count = 3;
    let mut file = vec![0u8; PAGE_SIZE];
    header.write(&mut file);
    let mut dm = DiskManagerImpl::open(&file, false).unwrap();
    assert_eq!(dm.header().page_count, 3);
    assert!(matches!(dm.read_page(PageId::new(1)), Err(StorageError::Io(_))));
    match dm.read_page(PageId::new(3)) {
        Err(StorageError::PageNotFound(id)) => assert_eq!(id, PageId::new(3)),
        _ => panic!("expected PageNotFound"),
    }
    // Once written, the page is there.
    dm.write_page(PageId::new(1), &vec![7u8; PAGE_SIZE]).unwrap();
    assert_eq!(dm.read_page(PageId::new(1)).unwrap().as_bytes(), &vec![7u8; PAGE_SIZE][..]);
}

#[test]
fn test_checksum_of_known_texts() {
    assert_eq!(crc32_bitwise(b""), 0);
    assert_eq!(crc32_bitwise(b"123456789"), 0xCBF4_3926);
    assert_eq!(crc32_bitwise(b"a"), 0xE8B7_BE43);
    assert_eq!(
        crc32_bitwise(b"The quick brown fox jumps over the lazy dog"),
        0x414F_A339
    );
}

#[test]
fn test_checksum_in_the_header_is_the_bitwise_one() {
    let mut header = FileHeader::new();
    for round in 0..50u32 {
        header.page_count = 1 + round * 7919;
        header.root_page = PageId::new(round.wrapping_mul(0x9E37_79B9));
        header.tree_height = round;
        header.free_page_count = round * 3;
        header.first_free_page = PageId::new(round ^ 0x5555);
        let mut bytes = vec![0u8; FILE_HEADER_SIZE];
        header.write(&mut bytes);
        let sum = crc32_bitwise(&bytes[0..40]);
        assert_eq!(&bytes[40..44], &sum.to_be_bytes());
        assert_eq!(sum, crc32fast::hash(&bytes[0..40]));
    }
    // Whatever the length and the bytes, the two agree.
    let mut text = Vec::new();
    for i in 0..300u32 {
        assert_eq!(crc32_bitwise(&text), crc32fast::hash(&text));
        text.push((i.wrapping_mul(2654435761) >> 13) as u8);
    }
}

#[test]
fn test_errors_name_the_sizes() {
    let mut dm = DiskManagerImpl::open(&[], false).unwrap();
    match dm.write_page(PageId::new(1), &[0u8; 100]) {
        Err(StorageError::InvalidOperation(text)) => {
            assert_eq!(text, "page data must be 4096 bytes, got 100")
        }
        _ => panic!("expected InvalidOperation"),
    }
    // A header that names another page size, with the checksum to match.
    let mut bytes = vec![0u8; FILE_HEADER_SIZE];
    FileHeader::new().write(&mut bytes);
    bytes[16..20].copy_from_slice(&8192u32.to_be_bytes());
    let sum = crc32_bitwise(&bytes[0..40]);
    bytes[40..44].copy_from_slice(&sum.to_be_bytes());
    match FileHeader::read(&bytes) {
        Err(StorageError::InvalidDatabaseFile(text)) => {
            assert_eq!(text, "unsupported page size: 8192 (expected 4096)")
        }
        _ => panic!("expected InvalidDatabaseFile"),
    }
}
