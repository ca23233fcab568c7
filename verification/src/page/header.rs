//! Page header structure.
//!
//! The header occupies the first bytes of each tree page.
//!
//! ```text
//! Offset  Size  Description
//! 0       1     Page type tag
//! 1       2     Offset to first freeblock (0 if none)
//! 3       2     Number of cells on this page
//! 5       2     Offset to start of cell content area
//! 7       1     Number of fragmented free bytes
//! 8       4     First child pointer (interior pages only)
//! ```
use crate::types::{PAGE_SIZE, PageType};
use crate::types::endian::{
    be16_at, be16_bytes, be32_at, be32_bytes, lemma_be16_roundtrip, lemma_be32_roundtrip, overwrite,
    read_u16_be, read_u32_be, write_u16_be, write_u32_be,
};
use vstd::prelude::*;

verus! {

/// Size of the page header for leaf pages.
pub const LEAF_HEADER_SIZE: usize = 8;

/// Size of the page header for interior pages, which add a child pointer.
pub const INTERIOR_HEADER_SIZE: usize = 12;

/// Page header structure.
#[derive(Debug, Clone, Copy)]
pub struct PageHeader {
    /// Type of this page.
    pub page_type: PageType,
    /// Offset to the first freeblock, or 0 if there are none.
    pub first_freeblock: u16,
    /// Number of cells on this page.
    pub cell_count: u16,
    /// Offset to the start of the cell content area.
    pub cell_content_start: u16,
    /// Number of fragmented free bytes within the cell content area.
    pub fragmented_bytes: u8,
    /// Child pointer held in the header (only kept for interior pages).
    pub right_child: u32,
}

impl PageHeader {
    /// Size in bytes of a header of this page's kind.
    pub open spec fn spec_size(&self) -> usize {
        if self.page_type.spec_is_interior() {
            INTERIOR_HEADER_SIZE
        } else {
            LEAF_HEADER_SIZE
        }
    }

    /// End of the cell pointer array: two bytes per cell after the header.
    pub open spec fn spec_cell_pointer_array_end(&self) -> usize {
        (self.spec_size() + self.cell_count * 2) as usize
    }

    /// Bytes between the cell pointer array and the cell content.
    pub open spec fn spec_free_space(&self) -> usize {
        if self.cell_content_start >= self.spec_cell_pointer_array_end() {
            (self.cell_content_start - self.spec_cell_pointer_array_end()) as usize
        } else {
            0
        }
    }

    /// The eight bytes that every header starts with.
    pub open spec fn fixed_bytes(&self) -> Seq<u8> {
        seq![self.page_type.spec_to_byte()] + be16_bytes(self.first_freeblock) + be16_bytes(
            self.cell_count,
        ) + be16_bytes(self.cell_content_start) + seq![self.fragmented_bytes]
    }

    /// `s` with this header written over its start. The child pointer is
    /// written only for an interior page, and only where `s` has room.
    pub open spec fn spec_write(&self, s: Seq<u8>) -> Seq<u8> {
        let t = overwrite(s, 0, self.fixed_bytes());
        if self.page_type.spec_is_interior() && s.len() >= INTERIOR_HEADER_SIZE {
            overwrite(t, 8, be32_bytes(self.right_child))
        } else {
            t
        }
    }

    /// The header that the start of `s` holds; `None` where `s` is shorter
    /// than a leaf header or its tag names no page kind.
    pub open spec fn spec_read(s: Seq<u8>) -> Option<PageHeader> {
        if s.len() < LEAF_HEADER_SIZE {
            None
        } else {
            match PageType::spec_from_byte(s[0]) {
                None => None,
                Some(page_type) => Some(
                    PageHeader {
                        page_type,
                        first_freeblock: be16_at(s, 1),
                        cell_count: be16_at(s, 3),
                        cell_content_start: be16_at(s, 5),
                        fragmented_bytes: s[7],
                        right_child: if page_type.spec_is_interior() && s.len()
                            >= INTERIOR_HEADER_SIZE {
                            be32_at(s, 8)
                        } else {
                            0
                        },
                    },
                ),
            }
        }
    }

    /// This header as it comes back from bytes: the child pointer of a
    /// page that is not interior is not stored.
    pub open spec fn stored(&self) -> PageHeader {
        PageHeader {
            right_child: if self.page_type.spec_is_interior() {
                self.right_child
            } else {
                0
            },
            ..*self
        }
    }

    /// Writing a header into a buffer that has room for it and reading it
    /// back gives the header as stored.
    pub proof fn lemma_write_read(&self, s: Seq<u8>)
        requires
            s.len() >= self.spec_size(),
        ensures
            PageHeader::spec_read(self.spec_write(s)) == Some(self.stored()),
            self.spec_write(s).len() == s.len(),
            forall|i: int| self.spec_size() <= i < s.len() ==> self.spec_write(s)[i] == s[i],
    {
        self.page_type.lemma_tag_roundtrip();
        lemma_be16_roundtrip(self.first_freeblock);
        lemma_be16_roundtrip(self.cell_count);
        lemma_be16_roundtrip(self.cell_content_start);
        lemma_be32_roundtrip(self.right_child);
        let w = self.spec_write(s);
        let f = self.fixed_bytes();
        assert(f.len() == 8);
        assert(f[0] == self.page_type.spec_to_byte());
        assert(f[1] == be16_bytes(self.first_freeblock)[0]);
        assert(f[2] == be16_bytes(self.first_freeblock)[1]);
        assert(f[3] == be16_bytes(self.cell_count)[0]);
        assert(f[4] == be16_bytes(self.cell_count)[1]);
        assert(f[5] == be16_bytes(self.cell_content_start)[0]);
        assert(f[6] == be16_bytes(self.cell_content_start)[1]);
        assert(f[7] == self.fragmented_bytes);
        assert(w[0] == f[0]);
        assert(w[1] == f[1] && w[2] == f[2] && w[3] == f[3] && w[4] == f[4]);
        assert(w[5] == f[5] && w[6] == f[6] && w[7] == f[7]);
    }

    /// Create a new page header for a leaf page.
    pub fn new_leaf() -> (r: Self)
        ensures
            r == (PageHeader {
                page_type: PageType::LeafTable,
                first_freeblock: 0,
                cell_count: 0,
                cell_content_start: PAGE_SIZE as u16,
                fragmented_bytes: 0,
                right_child: 0,
            }),
    {
        PageHeader {
            page_type: PageType::LeafTable,
            first_freeblock: 0,
            cell_count: 0,
            cell_content_start: 4096,
            fragmented_bytes: 0,
            right_child: 0,
        }
    }

    /// Create a new page header for an interior page.
    pub fn new_interior() -> (r: Self)
        ensures
            r == (PageHeader {
                page_type: PageType::InteriorTable,
                first_freeblock: 0,
                cell_count: 0,
                cell_content_start: PAGE_SIZE as u16,
                fragmented_bytes: 0,
                right_child: 0,
            }),
    {
        PageHeader {
            page_type: PageType::InteriorTable,
            first_freeblock: 0,
            cell_count: 0,
            cell_content_start: 4096,
            fragmented_bytes: 0,
            right_child: 0,
        }
    }

    /// Get the size of this header in bytes.
    #[verifier::when_used_as_spec(spec_size)]
    pub fn size(&self) -> (r: usize)
        ensures
            r == self.spec_size(),
    {
        if self.page_type.is_interior() {
            INTERIOR_HEADER_SIZE
        } else {
            LEAF_HEADER_SIZE
        }
    }

    /// Read a page header from bytes.
    pub fn read(bytes: &[u8]) -> (r: Option<Self>)
        ensures
            r == PageHeader::spec_read(bytes@),
    {
        if bytes.len() < LEAF_HEADER_SIZE {
            return None;
        }
        let page_type = match PageType::from_byte(bytes[0]) {
            Some(t) => t,
            None => {
                return None;
            },
        };
        let first_freeblock = read_u16_be(bytes, 1);
        let cell_count = read_u16_be(bytes, 3);
        let cell_content_start = read_u16_be(bytes, 5);
        let fragmented_bytes = bytes[7];
        let right_child = if page_type.is_interior() && bytes.len() >= INTERIOR_HEADER_SIZE {
            read_u32_be(bytes, 8)
        } else {
            0
        };
        Some(
            PageHeader {
                page_type,
                first_freeblock,
                cell_count,
                cell_content_start,
                fragmented_bytes,
                right_child,
            },
        )
    }

    /// Write this header to the start of `bytes`, which must hold at least
    /// a leaf header.
    pub fn write(&self, bytes: &mut [u8])
        requires
            old(bytes)@.len() >= LEAF_HEADER_SIZE,
        ensures
            final(bytes)@ == self.spec_write(old(bytes)@),
    {
        bytes[0] = self.page_type.to_byte();
        write_u16_be(bytes, 1, self.first_freeblock);
        write_u16_be(bytes, 3, self.cell_count);
        write_u16_be(bytes, 5, self.cell_content_start);
        bytes[7] = self.fragmented_bytes;
        assert(bytes@ =~= overwrite(old(bytes)@, 0, self.fixed_bytes()));
        if self.page_type.is_interior() && bytes.len() >= INTERIOR_HEADER_SIZE {
            write_u32_be(bytes, 8, self.right_child);
        }
    }

    /// Calculate the offset where cell pointers start.
    pub fn cell_pointer_offset(&self) -> (r: usize)
        ensures
            r == self.spec_size(),
    {
        self.size()
    }

    /// Calculate the end of the cell pointer array.
    #[verifier::when_used_as_spec(spec_cell_pointer_array_end)]
    pub fn cell_pointer_array_end(&self) -> (r: usize)
        ensures
            r == self.spec_cell_pointer_array_end(),
    {
        let count: usize = self.cell_count as usize;
        self.cell_pointer_offset() + count * 2
    }

    /// Calculate free space available for new cells: the bytes between the
    /// cell pointer array and the cell content, zero where they overlap.
    #[verifier::when_used_as_spec(spec_free_space)]
    pub fn free_space(&self) -> (r: usize)
        ensures
            r == self.spec_free_space(),
    {
        let used_by_pointers = self.cell_pointer_array_end();
        let start: usize = self.cell_content_start as usize;
        if start >= used_by_pointers {
            start - used_by_pointers
        } else {
            0
        }
    }
}

} // verus!
