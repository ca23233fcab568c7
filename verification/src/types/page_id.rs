//! Page identifier type.
use crate::types::text::{decimal, decimal_digits};
use vstd::prelude::*;

verus! {

/// Names a fixed-size slot in the database file.
///
/// Slot 0 holds the file header; tree pages start at 1. `u32::MAX` is a
/// sentinel that names no page.
#[derive(Debug, Clone, Copy, PartialEq, Eq, Structural, PartialOrd, Ord, Hash)]
pub struct PageId(pub u32);

impl Default for PageId {
    fn default() -> (r: Self)
        ensures
            r == PageId(0),
    {
        PageId(0)
    }
}

impl PageId {
    /// Sentinel that names no page.
    pub fn invalid() -> (r: Self)
        ensures
            r == PageId(u32::MAX),
    {
        PageId(u32::MAX)
    }

    /// The slot of the file header.
    pub fn header() -> (r: Self)
        ensures
            r == PageId(0),
    {
        PageId(0)
    }

    /// The raw number of a page id, for use in contracts.
    pub open spec fn spec_value(self) -> u32 {
        self.0
    }

    /// Create a new page ID.
    pub fn new(id: u32) -> (r: Self)
        ensures
            r == PageId(id),
    {
        PageId(id)
    }

    /// Get the raw page ID value.
    #[verifier::when_used_as_spec(spec_value)]
    pub fn value(self) -> (r: u32)
        ensures
            r == self.0,
    {
        self.0
    }

    /// Whether this id is anything but the sentinel.
    pub fn is_valid(self) -> (r: bool)
        ensures
            r == (self.0 != u32::MAX),
    {
        self.0 != u32::MAX
    }

    /// The text of a page id: its number in decimal, or `INVALID` for the
    /// sentinel.
    pub open spec fn spec_text(self) -> Seq<char> {
        if self.0 == u32::MAX {
            "INVALID"@
        } else {
            decimal_digits(self.0 as nat)
        }
    }

    /// The text of this page id: its number in decimal, or `INVALID` for
    /// the sentinel.
    pub fn to_string(self) -> (r: String)
        ensures
            r@ == self.spec_text(),
    {
        if self.0 == u32::MAX {
            "INVALID".to_owned()
        } else {
            decimal(self.0 as u64)
        }
    }

    /// Byte offset of this page in a file of `page_size`-byte pages.
    pub fn file_offset(self, page_size: usize) -> (r: u64)
        requires
            self.0 * page_size <= u64::MAX,
        ensures
            r == self.0 * page_size,
    {
        proof {
            assert(self.0 * page_size >= 0) by (nonlinear_arith);
        }
        let id: u64 = self.0 as u64;
        let size: u64 = page_size as u64;
        id * size
    }
}

} // verus!
