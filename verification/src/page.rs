//! Page layer: slotted page format with cell-based layout.
//!
//! A page is a fixed header, an array of cell pointers that grows from the
//! header toward the end, and cell content that grows from the end toward
//! the header, with the free space between them.
use crate::types::PAGE_SIZE;
use vstd::prelude::*;

pub mod cell;
pub mod header;
pub mod slotted;

verus! {

/// A raw page buffer: exactly `PAGE_SIZE` bytes.
pub struct PageBuf {
    data: Vec<u8>,
}

impl View for PageBuf {
    type V = Seq<u8>;

    closed spec fn view(&self) -> Seq<u8> {
        self.data@
    }
}

impl PageBuf {
    #[verifier::type_invariant]
    spec fn well_formed(self) -> bool {
        self.data@.len() == PAGE_SIZE
    }

    /// The first `PAGE_SIZE` bytes of `s`, with zeros where `s` is shorter.
    pub open spec fn spec_from_bytes(s: Seq<u8>) -> Seq<u8> {
        Seq::new(
            PAGE_SIZE as nat,
            |i: int|
                if i < s.len() {
                    s[i]
                } else {
                    0u8
                },
        )
    }

    /// Create a new zeroed page buffer.
    pub fn new() -> (r: Self)
        ensures
            r@ == Seq::new(PAGE_SIZE as nat, |i: int| 0u8),
    {
        let data: Vec<u8> = vec![0u8; PAGE_SIZE];
        assert(data@ =~= Seq::new(PAGE_SIZE as nat, |i: int| 0u8));
        PageBuf { data }
    }

    /// Create a page buffer from raw bytes: what goes beyond a page is
    /// dropped, what is missing is zero.
    pub fn from_bytes(bytes: &[u8]) -> (r: Self)
        ensures
            r@ == Self::spec_from_bytes(bytes@),
    {
        let mut data: Vec<u8> = vec![0u8; PAGE_SIZE];
        let len: usize = if bytes.len() < PAGE_SIZE {
            bytes.len()
        } else {
            PAGE_SIZE
        };
        let mut i: usize = 0;
        while i < len
            invariant
                i <= len,
                len <= PAGE_SIZE,
                len <= bytes@.len(),
                data@.len() == PAGE_SIZE,
                forall|j: int| 0 <= j < i ==> data@[j] == bytes@[j],
                forall|j: int| i <= j < PAGE_SIZE ==> data@[j] == 0u8,
            decreases len - i,
        {
            data.set(i, bytes[i]);
            i += 1;
        }
        assert(data@ =~= Self::spec_from_bytes(bytes@));
        PageBuf { data }
    }

    /// The bytes of the buffer, as a vector.
    pub fn into_vec(self) -> (r: Vec<u8>)
        ensures
            r@ == self@,
            r@.len() == PAGE_SIZE,
    {
        proof {
            use_type_invariant(&self);
        }
        self.data
    }

    /// Get a reference to the raw bytes.
    pub fn as_bytes(&self) -> (r: &[u8])
        ensures
            r@ == self@,
            r@.len() == PAGE_SIZE,
    {
        proof {
            use_type_invariant(self);
        }
        self.data.as_slice()
    }
}

impl Default for PageBuf {
    fn default() -> (r: Self)
        ensures
            r@ == Seq::new(PAGE_SIZE as nat, |i: int| 0u8),
    {
        PageBuf::new()
    }
}

impl Clone for PageBuf {
    fn clone(&self) -> (r: Self)
        ensures
            r@ == self@,
    {
        proof {
            use_type_invariant(self);
        }
        let data = self.data.clone();
        assert(data@ =~= self.data@);
        PageBuf { data }
    }
}

} // verus!
