use btree_storage::types::key_order::{compare_keys, key_less, keys_equal, KeyOrder};
use btree_storage::types::page_id::PageId;
use btree_storage::types::varint::{decode_varint, encode_varint, varint_size};
use btree_storage::types::{
    BTreeConfig, PageType, DEFAULT_MAX_INTERIOR_KEYS, DEFAULT_MAX_LEAF_KEYS, MAX_KEY_SIZE,
    MAX_VALUE_SIZE, MIN_KEYS, PAGE_SIZE,
};

#[test]
fn test_page_type_conversions() {
    assert!(PageType::LeafTable.is_leaf());
    assert!(PageType::LeafIndex.is_leaf());
    assert!(!PageType::InteriorTable.is_leaf());

    assert!(PageType::InteriorTable.is_interior());
    assert!(!PageType::LeafTable.is_interior());

    assert_eq!(PageType::from_byte(0x0D), Some(PageType::LeafTable));
    assert_eq!(PageType::from_byte(0xFF), None);
}

#[test]
fn test_page_type_tags_roundtrip() {
    let kinds = [
        (PageType::Free, 0x00u8),
        (PageType::InteriorTable, 0x02),
        (PageType::InteriorIndex, 0x05),
        (PageType::LeafTable, 0x0D),
        (PageType::LeafIndex, 0x0A),
        (PageType::Overflow, 0x0F),
    ];
    for (kind, tag) in kinds {
        assert_eq!(kind.to_byte(), tag);
        assert_eq!(PageType::from_byte(tag), Some(kind));
    }
    assert_eq!(PageType::from_byte(0x01), None);
}

#[test]
fn test_constants() {
    assert_eq!(PAGE_SIZE, 4096);
    assert_eq!(MAX_KEY_SIZE, 1024);
    assert_eq!(MAX_VALUE_SIZE, 2048);
    assert_eq!(MIN_KEYS, 2);
}

#[test]
fn test_btree_config_limits() {
    let c = BTreeConfig::default();
    assert_eq!(c.max_leaf_keys, DEFAULT_MAX_LEAF_KEYS);
    assert_eq!(c.max_interior_keys, DEFAULT_MAX_INTERIOR_KEYS);
    let c = BTreeConfig::new(0, 7);
    assert_eq!(c.max_leaf_keys, 2);
    assert_eq!(c.max_interior_keys, 7);
    let c = BTreeConfig::high_capacity();
    assert_eq!(c.max_leaf_keys, 1000);
    assert_eq!(c.max_interior_keys, 1000);
}

#[test]
fn test_page_id_basics() {
    let id = PageId::new(42);
    assert_eq!(id.value(), 42);
    assert!(id.is_valid());
    assert!(!PageId::invalid().is_valid());
}

#[test]
fn test_page_id_file_offset() {
    let id = PageId::new(3);
    assert_eq!(id.file_offset(PAGE_SIZE), 3 * PAGE_SIZE as u64);
}

#[test]
fn test_page_id_header_and_default() {
    assert_eq!(PageId::header(), PageId::new(0));
    assert_eq!(PageId::default(), PageId::new(0));
    assert_eq!(PageId::invalid().value(), u32::MAX);
}

#[test]
fn test_varint_roundtrip() {
    let test_values = [
        0u64,
        1,
        127,
        128,
        255,
        256,
        16383,
        16384,
        2097151,
        2097152,
        u32::MAX as u64,
        u64::MAX,
    ];

    for &value in &test_values {
        let encoded = encode_varint(value);
        let (decoded, size) = decode_varint(&encoded).unwrap();
        assert_eq!(decoded, value, "Failed for value {}", value);
        assert_eq!(size, encoded.len());
    }
}

#[test]
fn test_varint_size() {
    assert_eq!(varint_size(0), 1);
    assert_eq!(varint_size(127), 1);
    assert_eq!(varint_size(128), 2);
    assert_eq!(encode_varint(127).len(), 1);
    assert_eq!(encode_varint(128).len(), 2);
}

#[test]
fn test_decode_empty() {
    assert!(decode_varint(&[]).is_none());
}

#[test]
fn test_varint_exact_bytes() {
    assert_eq!(encode_varint(0), vec![0x00]);
    assert_eq!(encode_varint(127), vec![0x7F]);
    assert_eq!(encode_varint(128), vec![0x80, 0x01]);
    assert_eq!(encode_varint(300), vec![0xAC, 0x02]);
    assert_eq!(encode_varint(16384), vec![0x80, 0x80, 0x01]);
    let max = encode_varint(u64::MAX);
    assert_eq!(max.len(), 10);
    assert_eq!(max[9], 0x01);
    assert!(max[..9].iter().all(|b| *b == 0xFF));
}

#[test]
fn test_varint_decode_stops_at_terminator() {
    assert_eq!(decode_varint(&[0xAC, 0x02, 0xFF, 0xFF]), Some((300, 2)));
    assert_eq!(decode_varint(&[0x05, 0x80]), Some((5, 1)));
}

#[test]
fn test_varint_decode_rejects_unterminated() {
    assert_eq!(decode_varint(&[0x80]), None);
    assert_eq!(decode_varint(&[0xFF; 10]), None);
    assert_eq!(decode_varint(&[0xFF; 11]), None);
    let mut eleven = vec![0x80u8; 10];
    eleven.push(0x01);
    assert_eq!(decode_varint(&eleven), None);
}

#[test]
fn test_varint_tenth_byte_is_cut_to_one_bit() {
    let mut bytes = vec![0x80u8; 9];
    bytes.push(0x03);
    assert_eq!(decode_varint(&bytes), Some((1u64 << 63, 10)));
}

#[test]
fn test_varint_size_table() {
    assert_eq!(varint_size(16383), 2);
    assert_eq!(varint_size(16384), 3);
    assert_eq!(varint_size(2097151), 3);
    assert_eq!(varint_size(268435455), 4);
    assert_eq!(varint_size(34359738367), 5);
    assert_eq!(varint_size(4398046511103), 6);
    assert_eq!(varint_size(562949953421311), 7);
    assert_eq!(varint_size(72057594037927935), 8);
    assert_eq!(varint_size(72057594037927936), 9);
    assert_eq!(varint_size(u64::MAX), 9);
}

#[test]
fn test_compare_keys_is_byte_lexicographic() {
    assert_eq!(compare_keys(b"a", b"b"), KeyOrder::Less);
    assert_eq!(compare_keys(b"b", b"a"), KeyOrder::Greater);
    assert_eq!(compare_keys(b"abc", b"abc"), KeyOrder::Equal);
    assert_eq!(compare_keys(b"ab", b"abc"), KeyOrder::Less);
    assert_eq!(compare_keys(b"abc", b"ab"), KeyOrder::Greater);
    assert_eq!(compare_keys(b"", b""), KeyOrder::Equal);
    assert_eq!(compare_keys(b"", b"\0"), KeyOrder::Less);
    assert_eq!(compare_keys(&[0x7F], &[0x80]), KeyOrder::Less);
    assert_eq!(compare_keys(b"key10", b"key9"), KeyOrder::Less);
    assert!(key_less(b"apple", b"banana"));
    assert!(!key_less(b"banana", b"banana"));
    assert!(keys_equal(b"k", b"k"));
    assert!(!keys_equal(b"k", b"kk"));
}

#[test]
fn test_compare_keys_agrees_with_slice_order() {
    let keys: [&[u8]; 7] = [b"", b"a", b"aa", b"ab", b"b", &[0xFF], &[0xFF, 0x00]];
    for a in keys {
        for b in keys {
            let expected = match a.cmp(b) {
                std::cmp::Ordering::Less => KeyOrder::Less,
                std::cmp::Ordering::Equal => KeyOrder::Equal,
                std::cmp::Ordering::Greater => KeyOrder::Greater,
            };
            assert_eq!(compare_keys(a, b), expected);
        }
    }
}
