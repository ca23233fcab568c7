//! Database file header.
//!
//! The first page of the database file describes the database.
//!
//! ```text
//! Offset  Size  Description
//! 0       16    Magic string "BTreeStorageV01\0"
//! 16      4     Page size (always 4096)
//! 20      4     Total page count
//! 24      4     First free page ID (0 if none)
//! 28      4     Free page count
//! 32      4     Root page ID of the tree (0 while it is empty)
//! 36      4     Tree height
//! 40      4     Checksum of bytes 0..40 (CRC32)
//! ```
//!
//! All integers are big-endian. The rest of the page is zero.
use crate::error::StorageError;
use crate::storage::crc::{checksum, crc32, lemma_changed_byte_shows};
use crate::types::PAGE_SIZE;
use crate::types::endian::{be32_at, be32_bytes, lemma_be32_roundtrip, read_u32_be, write_u32_be};
use crate::types::page_id::PageId;
use crate::types::text::numbered;
use vstd::prelude::*;
use vstd::slice::slice_subrange;

verus! {

/// File header size (uses the first page).
pub const FILE_HEADER_SIZE: usize = PAGE_SIZE;

/// Number of leading bytes that the checksum covers.
pub const CHECKSUMMED_LEN: usize = 40;

/// Number of leading bytes that carry the header: the checksummed part and
/// the checksum.
pub const HEADER_FIELDS_LEN: usize = 44;

/// The sixteen bytes that identify a database file: the text
/// `BTreeStorageV01` and a zero byte.
pub open spec fn magic() -> Seq<u8> {
    seq![
        0x42u8, 0x54u8, 0x72u8, 0x65u8, 0x65u8, 0x53u8, 0x74u8, 0x6fu8,
        0x72u8, 0x61u8, 0x67u8, 0x65u8, 0x56u8, 0x30u8, 0x31u8, 0x00u8,
    ]
}

/// The magic bytes, for writing and comparing.
fn magic_bytes() -> (r: [u8; 16])
    ensures
        r@ == magic(),
{
    let r: [u8; 16] = [
        0x42u8, 0x54u8, 0x72u8, 0x65u8, 0x65u8, 0x53u8, 0x74u8, 0x6fu8,
        0x72u8, 0x61u8, 0x67u8, 0x65u8, 0x56u8, 0x30u8, 0x31u8, 0x00u8,
    ];
    assert(r@ =~= magic());
    r
}

/// Database file header.
#[derive(Debug, Clone, Copy)]
pub struct FileHeader {
    /// Page size in bytes.
    pub page_size: u32,
    /// Total number of pages in the file (including the header page).
    pub page_count: u32,
    /// Most recently freed page (0 if no page was freed).
    pub first_free_page: PageId,
    /// Number of free pages.
    pub free_page_count: u32,
    /// Root page of the tree (0 while it is empty).
    pub root_page: PageId,
    /// Height of the tree.
    pub tree_height: u32,
}

/// Whether `s` starts with the magic bytes.
pub open spec fn has_magic(s: Seq<u8>) -> bool {
    s.len() >= 16 && s.subrange(0, 16) == magic()
}

/// Whether the checksum stored in `s` is the checksum of the bytes before it.
pub open spec fn checksum_matches(s: Seq<u8>) -> bool {
    s.len() >= HEADER_FIELDS_LEN && be32_at(s, 40) == crc32(s.subrange(0, 40))
}

/// The fields that `s` holds, read without any check.
pub open spec fn fields_of(s: Seq<u8>) -> FileHeader {
    FileHeader {
        page_size: be32_at(s, 16),
        page_count: be32_at(s, 20),
        first_free_page: PageId(be32_at(s, 24)),
        free_page_count: be32_at(s, 28),
        root_page: PageId(be32_at(s, 32)),
        tree_height: be32_at(s, 36),
    }
}

/// The header that `s` holds: `None` unless `s` is long enough, starts
/// with the magic bytes, carries a matching checksum and names the page
/// size of this build.
pub open spec fn spec_read(s: Seq<u8>) -> Option<FileHeader> {
    if s.len() >= HEADER_FIELDS_LEN && has_magic(s) && checksum_matches(s) && fields_of(
        s,
    ).page_size == PAGE_SIZE {
        Some(fields_of(s))
    } else {
        None
    }
}

impl FileHeader {
    /// The forty bytes that the checksum covers.
    pub open spec fn checksummed(&self) -> Seq<u8> {
        magic() + be32_bytes(self.page_size) + be32_bytes(self.page_count) + be32_bytes(
            self.first_free_page.0,
        ) + be32_bytes(self.free_page_count) + be32_bytes(self.root_page.0) + be32_bytes(
            self.tree_height,
        )
    }

    /// The header page: fields, checksum, and zeros up to the page size.
    pub open spec fn image(&self) -> Seq<u8> {
        self.checksummed() + be32_bytes(crc32(self.checksummed())) + Seq::new(
            (PAGE_SIZE - HEADER_FIELDS_LEN) as nat,
            |i: int| 0u8,
        )
    }

    /// `s` with its first page replaced by the header page.
    pub open spec fn spec_write(&self, s: Seq<u8>) -> Seq<u8> {
        self.image() + s.skip(PAGE_SIZE as int)
    }

    /// The fields of an image read back are the header's.
    pub proof fn lemma_image_fields(&self, rest: Seq<u8>)
        ensures
            (self.image() + rest).len() == PAGE_SIZE + rest.len(),
            (self.image() + rest).subrange(0, 40) == self.checksummed(),
            has_magic(self.image() + rest),
            checksum_matches(self.image() + rest),
            fields_of(self.image() + rest) == *self,
    {
        let c = self.checksummed();
        let s = self.image() + rest;
        assert(c.len() == 40);
        assert(s.subrange(0, 40) =~= c);
        assert(s.subrange(0, 16) =~= magic());
        lemma_be32_roundtrip(self.page_size);
        lemma_be32_roundtrip(self.page_count);
        lemma_be32_roundtrip(self.first_free_page.0);
        lemma_be32_roundtrip(self.free_page_count);
        lemma_be32_roundtrip(self.root_page.0);
        lemma_be32_roundtrip(self.tree_height);
        lemma_be32_roundtrip(crc32(c));
        let p = be32_bytes(self.page_size);
        assert(s[16] == p[0] && s[17] == p[1] && s[18] == p[2] && s[19] == p[3]);
        let p = be32_bytes(self.page_count);
        assert(s[20] == p[0] && s[21] == p[1] && s[22] == p[2] && s[23] == p[3]);
        let p = be32_bytes(self.first_free_page.0);
        assert(s[24] == p[0] && s[25] == p[1] && s[26] == p[2] && s[27] == p[3]);
        let p = be32_bytes(self.free_page_count);
        assert(s[28] == p[0] && s[29] == p[1] && s[30] == p[2] && s[31] == p[3]);
        let p = be32_bytes(self.root_page.0);
        assert(s[32] == p[0] && s[33] == p[1] && s[34] == p[2] && s[35] == p[3]);
        let p = be32_bytes(self.tree_height);
        assert(s[36] == p[0] && s[37] == p[1] && s[38] == p[2] && s[39] == p[3]);
        let p = be32_bytes(crc32(c));
        assert(s[40] == p[0] && s[41] == p[1] && s[42] == p[2] && s[43] == p[3]);
    }

    /// A header written and read back keeps every field, provided it names
    /// the page size of this build; any other page size makes the read
    /// fail.
    pub proof fn lemma_write_read(&self, s: Seq<u8>)
        ensures
            self.page_size == PAGE_SIZE ==> spec_read(self.spec_write(s)) == Some(*self),
            self.page_size != PAGE_SIZE ==> spec_read(self.spec_write(s)) is None,
    {
        self.lemma_image_fields(s.skip(PAGE_SIZE as int));
    }

    /// The header of an empty database: one page, no root.
    pub open spec fn spec_new() -> FileHeader {
        FileHeader {
            page_size: PAGE_SIZE as u32,
            page_count: 1,
            first_free_page: PageId(0),
            free_page_count: 0,
            root_page: PageId(0),
            tree_height: 0,
        }
    }

    /// Create a new file header for an empty database.
    #[verifier::when_used_as_spec(spec_new)]
    pub fn new() -> (r: Self)
        ensures
            r == FileHeader::spec_new(),
    {
        FileHeader {
            page_size: 4096,
            page_count: 1,
            first_free_page: PageId::new(0),
            free_page_count: 0,
            root_page: PageId::new(0),
            tree_height: 0,
        }
    }

    /// Read a file header from bytes.
    ///
    /// A buffer that is too short, lacks the magic bytes, carries a
    /// checksum that does not match or names another page size is not a
    /// database file.
    pub fn read(bytes: &[u8]) -> (r: Result<Self, StorageError>)
        ensures
            match r {
                Ok(h) => spec_read(bytes@) == Some(h),
                Err(StorageError::InvalidDatabaseFile(_)) => bytes@.len() < HEADER_FIELDS_LEN
                    || !has_magic(bytes@) || !checksum_matches(bytes@) || fields_of(
                    bytes@,
                ).page_size != PAGE_SIZE,
                Err(_) => false,
            },
    {
        if bytes.len() < HEADER_FIELDS_LEN {
            return Err(StorageError::invalid_db("header too short"));
        }
        let expected = magic_bytes();
        let mut i: usize = 0;
        while i < 16
            invariant
                i <= 16,
                bytes@.len() >= HEADER_FIELDS_LEN,
                expected@ == magic(),
                forall|j: int| 0 <= j < i ==> bytes@[j] == magic()[j],
            decreases 16 - i,
        {
            if bytes[i] != expected[i] {
                assert(bytes@.subrange(0, 16)[i as int] != magic()[i as int]);
                return Err(StorageError::invalid_db("invalid magic bytes"));
            }
            i += 1;
        }
        assert(bytes@.subrange(0, 16) =~= magic());
        let page_size = read_u32_be(bytes, 16);
        let page_count = read_u32_be(bytes, 20);
        let first_free_page = read_u32_be(bytes, 24);
        let free_page_count = read_u32_be(bytes, 28);
        let root_page = read_u32_be(bytes, 32);
        let tree_height = read_u32_be(bytes, 36);
        let stored_checksum = read_u32_be(bytes, 40);
        let computed_checksum = checksum(slice_subrange(bytes, 0, CHECKSUMMED_LEN));
        if stored_checksum != computed_checksum {
            return Err(StorageError::invalid_db("header checksum mismatch"));
        }
        if page_size != 4096 {
            let start = numbered("unsupported page size: ", page_size as usize, " (expected ");
            let text = numbered(start.as_str(), PAGE_SIZE, ")");
            return Err(StorageError::invalid_db(text.as_str()));
        }
        Ok(
            FileHeader {
                page_size,
                page_count,
                first_free_page: PageId::new(first_free_page),
                free_page_count,
                root_page: PageId::new(root_page),
                tree_height,
            },
        )
    }

    /// Write this header over the first page of `bytes`: the fields, their
    /// checksum, and zeros up to the end of the page.
    pub fn write(&self, bytes: &mut [u8])
        requires
            old(bytes)@.len() >= FILE_HEADER_SIZE,
        ensures
            final(bytes)@ == self.spec_write(old(bytes)@),
    {
        let mut i: usize = 0;
        while i < FILE_HEADER_SIZE
            invariant
                i <= FILE_HEADER_SIZE,
                bytes@.len() == old(bytes)@.len(),
                bytes@.len() >= FILE_HEADER_SIZE,
                forall|j: int| 0 <= j < i ==> bytes@[j] == 0u8,
                forall|j: int| FILE_HEADER_SIZE <= j < bytes@.len() ==> bytes@[j] == old(bytes)@[j],
            decreases FILE_HEADER_SIZE - i,
        {
            bytes[i] = 0u8;
            i += 1;
        }
        let m = magic_bytes();
        let mut k: usize = 0;
        while k < 16
            invariant
                k <= 16,
                m@ == magic(),
                bytes@.len() == old(bytes)@.len(),
                bytes@.len() >= FILE_HEADER_SIZE,
                forall|j: int| 0 <= j < k ==> bytes@[j] == magic()[j],
                forall|j: int| 16 <= j < FILE_HEADER_SIZE ==> bytes@[j] == 0u8,
                forall|j: int| FILE_HEADER_SIZE <= j < bytes@.len() ==> bytes@[j] == old(bytes)@[j],
            decreases 16 - k,
        {
            bytes[k] = m[k];
            k += 1;
        }
        write_u32_be(bytes, 16, self.page_size);
        write_u32_be(bytes, 20, self.page_count);
        write_u32_be(bytes, 24, self.first_free_page.value());
        write_u32_be(bytes, 28, self.free_page_count);
        write_u32_be(bytes, 32, self.root_page.value());
        write_u32_be(bytes, 36, self.tree_height);
        assert(bytes@.subrange(0, 40) =~= self.checksummed());
        let sum = checksum(slice_subrange(bytes, 0, CHECKSUMMED_LEN));
        write_u32_be(bytes, 40, sum);
        assert(bytes@ =~= self.spec_write(old(bytes)@));
    }

    /// Allocate a new page ID: the current page count, which then grows
    /// by one.
    pub fn allocate_page(&mut self) -> (r: PageId)
        requires
            old(self).page_count < u32::MAX,
        ensures
            r == PageId(old(self).page_count),
            *final(self) == (FileHeader { page_count: (old(self).page_count + 1) as u32, ..*old(self) }),
    {
        let page_id = PageId::new(self.page_count);
        self.page_count = self.page_count + 1;
        page_id
    }
}

impl Default for FileHeader {
    fn default() -> (r: Self)
        ensures
            r == FileHeader::spec_new(),
    {
        FileHeader::new()
    }
}

/// Changing any one of the first forty bytes of a readable header makes
/// the read fail: the change shows in the checksum of those bytes.
pub proof fn lemma_flipped_byte_fails(s: Seq<u8>, i: int, b: u8)
    requires
        spec_read(s) is Some,
        0 <= i < 40,
        b != s[i],
    ensures
        spec_read(s.update(i, b)) is None,
{
    let t = s.update(i, b);
    assert(t[40] == s[40] && t[41] == s[41] && t[42] == s[42] && t[43] == s[43]);
    lemma_changed_byte_shows(s.subrange(0, 40), t.subrange(0, 40), i);
}

} // verus!
