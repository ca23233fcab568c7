//! Cell encoding and decoding.
//!
//! Cells are the variable-length records stored within tree pages. A leaf
//! cell holds a key and its value; an interior cell holds a separator key
//! and the page of the subtree whose keys are not below it.
//!
//! ```text
//! leaf:      varint(key_len) varint(value_len) key value
//! interior:  child (u32, big-endian) varint(key_len) key
//! ```
use crate::types::endian::{be32_at, be32_bytes, lemma_be32_roundtrip, read_u32_be, write_u32_be};
use crate::types::page_id::PageId;
use crate::types::varint::{
    decode_varint, encode_varint, lemma_varint_roundtrip, spec_decode_varint, spec_encode_varint,
};
use vstd::prelude::*;
use vstd::slice::*;

verus! {

/// Type of cell stored in a page.
#[derive(Debug, Clone, Copy, PartialEq, Eq, Structural)]
pub enum CellType {
    /// Leaf cell: contains key + value.
    Leaf,
    /// Interior cell: contains key + child pointer.
    Interior,
}

/// A cell within a tree page.
#[derive(Debug, Clone)]
pub struct Cell {
    /// Type of this cell.
    pub cell_type: CellType,
    /// The key bytes.
    pub key: Vec<u8>,
    /// The value bytes (only for leaf cells).
    pub value: Vec<u8>,
    /// Child page pointer (only for interior cells).
    pub left_child: PageId,
}

/// What a cell stands for: its key and, by kind, its value or its child.
/// The field that the kind does not use is fixed: an interior cell has the
/// empty value, a leaf cell the invalid page id.
pub ghost struct CellView {
    pub cell_type: CellType,
    pub key: Seq<u8>,
    pub value: Seq<u8>,
    pub left_child: PageId,
}

/// The leaf cell of `key` and `value`.
pub open spec fn leaf_view(key: Seq<u8>, value: Seq<u8>) -> CellView {
    CellView { cell_type: CellType::Leaf, key, value, left_child: PageId(u32::MAX) }
}

/// The interior cell of `key` and `child`.
pub open spec fn interior_view(key: Seq<u8>, child: PageId) -> CellView {
    CellView { cell_type: CellType::Interior, key, value: Seq::empty(), left_child: child }
}

/// The bytes of a leaf cell.
pub open spec fn spec_encode_leaf(key: Seq<u8>, value: Seq<u8>) -> Seq<u8> {
    spec_encode_varint(key.len()) + spec_encode_varint(value.len()) + key + value
}

/// The bytes of an interior cell.
pub open spec fn spec_encode_interior(key: Seq<u8>, child: PageId) -> Seq<u8> {
    be32_bytes(child.0) + spec_encode_varint(key.len()) + key
}

/// The bytes of a cell.
pub open spec fn spec_encode_cell(c: CellView) -> Seq<u8> {
    match c.cell_type {
        CellType::Leaf => spec_encode_leaf(c.key, c.value),
        CellType::Interior => spec_encode_interior(c.key, c.left_child),
    }
}

/// The leaf cell at the start of `s` and its length in bytes; `None`
/// where a length does not decode or the key or value runs past `s`.
pub open spec fn spec_decode_leaf(s: Seq<u8>) -> Option<(CellView, nat)> {
    match spec_decode_varint(s) {
        None => None,
        Some((key_len, n1)) => match spec_decode_varint(s.skip(n1 as int)) {
            None => None,
            Some((value_len, n2)) => {
                let start = n1 + n2;
                if start + key_len + value_len > s.len() {
                    None
                } else {
                    Some(
                        (
                            leaf_view(
                                s.subrange(start as int, start + key_len),
                                s.subrange(start + key_len, start + key_len + value_len),
                            ),
                            (start + key_len + value_len) as nat,
                        ),
                    )
                }
            },
        },
    }
}

/// The interior cell at the start of `s` and its length in bytes; `None`
/// where `s` is too short for the child pointer, the key length does not
/// decode, or the key runs past `s`.
pub open spec fn spec_decode_interior(s: Seq<u8>) -> Option<(CellView, nat)> {
    if s.len() < 4 {
        None
    } else {
        match spec_decode_varint(s.skip(4)) {
            None => None,
            Some((key_len, n)) => {
                let start = 4 + n;
                if start + key_len > s.len() {
                    None
                } else {
                    Some(
                        (
                            interior_view(
                                s.subrange(start as int, start + key_len),
                                PageId(be32_at(s, 0)),
                            ),
                            (start + key_len) as nat,
                        ),
                    )
                }
            },
        }
    }
}

/// The cell of kind `kind` at the start of `s`.
pub open spec fn spec_decode_cell(kind: CellType, s: Seq<u8>) -> Option<(CellView, nat)> {
    match kind {
        CellType::Leaf => spec_decode_leaf(s),
        CellType::Interior => spec_decode_interior(s),
    }
}

/// Decoding the bytes of a leaf cell gives the cell back, and the number
/// of bytes it was written in, whatever follows them.
pub proof fn lemma_leaf_roundtrip(key: Seq<u8>, value: Seq<u8>, rest: Seq<u8>)
    requires
        key.len() <= u64::MAX,
        value.len() <= u64::MAX,
    ensures
        spec_decode_leaf(spec_encode_leaf(key, value) + rest) == Some(
            (leaf_view(key, value), spec_encode_leaf(key, value).len()),
        ),
{
    let v1 = spec_encode_varint(key.len());
    let v2 = spec_encode_varint(value.len());
    let s = spec_encode_leaf(key, value) + rest;
    assert(s =~= v1 + (v2 + key + value + rest));
    lemma_varint_roundtrip(key.len() as u64, v2 + key + value + rest);
    assert(s.skip(v1.len() as int) =~= v2 + (key + value + rest));
    lemma_varint_roundtrip(value.len() as u64, key + value + rest);
    let start = (v1.len() + v2.len()) as int;
    assert(s.subrange(start, start + key.len()) =~= key);
    assert(s.subrange(start + key.len(), start + key.len() + value.len()) =~= value);
}

/// Decoding the bytes of an interior cell gives the cell back, and the
/// number of bytes it was written in, whatever follows them.
pub proof fn lemma_interior_roundtrip(key: Seq<u8>, child: PageId, rest: Seq<u8>)
    requires
        key.len() <= u64::MAX,
    ensures
        spec_decode_interior(spec_encode_interior(key, child) + rest) == Some(
            (interior_view(key, child), spec_encode_interior(key, child).len()),
        ),
{
    let v = spec_encode_varint(key.len());
    let s = spec_encode_interior(key, child) + rest;
    let c = be32_bytes(child.0);
    assert(s =~= c + (v + key + rest));
    assert(s.skip(4) =~= v + (key + rest));
    lemma_varint_roundtrip(key.len() as u64, key + rest);
    let start = (4 + v.len()) as int;
    assert(s.subrange(start, start + key.len()) =~= key);
    lemma_be32_roundtrip(child.0);
    assert(s[0] == c[0] && s[1] == c[1] && s[2] == c[2] && s[3] == c[3]);
}

/// Decoding the bytes of a cell gives the cell back, for both kinds.
pub proof fn lemma_cell_roundtrip(c: CellView, rest: Seq<u8>)
    requires
        c.key.len() <= u64::MAX,
        c.value.len() <= u64::MAX,
        c == leaf_view(c.key, c.value) || c == interior_view(c.key, c.left_child),
    ensures
        spec_decode_cell(c.cell_type, spec_encode_cell(c) + rest) == Some(
            (c, spec_encode_cell(c).len()),
        ),
{
    if c.cell_type == CellType::Leaf {
        lemma_leaf_roundtrip(c.key, c.value, rest);
    } else {
        lemma_interior_roundtrip(c.key, c.left_child, rest);
    }
}

/// Append `src` to `buf`.
fn append_bytes(buf: &mut Vec<u8>, src: &[u8])
    ensures
        final(buf)@ == old(buf)@ + src@,
{
    let mut i: usize = 0;
    while i < src.len()
        invariant
            i <= src@.len(),
            buf@ == old(buf)@ + src@.take(i as int),
        decreases src@.len() - i,
    {
        buf.push(src[i]);
        assert(src@.take(i + 1) =~= src@.take(i as int).push(src@[i as int]));
        assert(buf@ =~= old(buf)@ + src@.take(i + 1));
        i += 1;
    }
    assert(src@.take(i as int) =~= src@);
}

/// Number of bytes of the varint that encodes `value`.
fn varint_len(value: u64) -> (r: usize)
    ensures
        r == spec_encode_varint(value as nat).len(),
        1 <= r <= 10,
{
    encode_varint(value).len()
}

impl View for Cell {
    type V = CellView;

    open spec fn view(&self) -> CellView {
        match self.cell_type {
            CellType::Leaf => leaf_view(self.key@, self.value@),
            CellType::Interior => interior_view(self.key@, self.left_child),
        }
    }
}

impl Cell {
    /// Create a new leaf cell with key and value.
    pub fn new_leaf(key: Vec<u8>, value: Vec<u8>) -> (r: Self)
        ensures
            r@ == leaf_view(key@, value@),
            r.cell_type == CellType::Leaf,
            r.key == key,
            r.value == value,
            r.left_child == PageId(u32::MAX),
    {
        Cell { cell_type: CellType::Leaf, key, value, left_child: PageId::invalid() }
    }

    /// Create a new interior cell with key and child pointer.
    pub fn new_interior(key: Vec<u8>, left_child: PageId) -> (r: Self)
        ensures
            r@ == interior_view(key@, left_child),
            r.cell_type == CellType::Interior,
            r.key == key,
            r.value@ == Seq::<u8>::empty(),
            r.left_child == left_child,
    {
        Cell { cell_type: CellType::Interior, key, value: Vec::new(), left_child }
    }

    /// Calculate the encoded size of this cell in bytes.
    pub fn encoded_size(&self) -> (r: usize)
        requires
            self.key@.len() + self.value@.len() + 20 <= usize::MAX,
        ensures
            r == spec_encode_cell(self@).len(),
            1 <= r <= self.key@.len() + self.value@.len() + 20,
    {
        match self.cell_type {
            CellType::Leaf => {
                let key_len_size = varint_len(self.key.len() as u64);
                let value_len_size = varint_len(self.value.len() as u64);
                key_len_size + value_len_size + self.key.len() + self.value.len()
            },
            CellType::Interior => {
                let key_len_size = varint_len(self.key.len() as u64);
                4 + key_len_size + self.key.len()
            },
        }
    }

    /// Encode this cell into bytes.
    pub fn encode(&self) -> (buf: Vec<u8>)
        ensures
            buf@ == spec_encode_cell(self@),
    {
        let mut buf: Vec<u8> = Vec::new();
        match self.cell_type {
            CellType::Leaf => {
                let key_len = encode_varint(self.key.len() as u64);
                let value_len = encode_varint(self.value.len() as u64);
                append_bytes(&mut buf, key_len.as_slice());
                append_bytes(&mut buf, value_len.as_slice());
                append_bytes(&mut buf, self.key.as_slice());
                append_bytes(&mut buf, self.value.as_slice());
                assert(buf@ =~= spec_encode_leaf(self.key@, self.value@));
            },
            CellType::Interior => {
                let mut child: Vec<u8> = vec![0u8; 4];
                write_u32_be(child.as_mut_slice(), 0, self.left_child.value());
                let key_len = encode_varint(self.key.len() as u64);
                append_bytes(&mut buf, child.as_slice());
                append_bytes(&mut buf, key_len.as_slice());
                append_bytes(&mut buf, self.key.as_slice());
                assert(child@ =~= be32_bytes(self.left_child.0));
                assert(buf@ =~= spec_encode_interior(self.key@, self.left_child));
            },
        }
        buf
    }

    /// Decode a leaf cell from the start of `bytes`.
    ///
    /// Returns the cell and the number of bytes consumed.
    pub fn decode_leaf(bytes: &[u8]) -> (r: Option<(Self, usize)>)
        ensures
            match spec_decode_leaf(bytes@) {
                Some((c, n)) => r matches Some((cell, used)) && cell@ == c && used == n
                    && cell.cell_type == CellType::Leaf && cell.left_child == PageId(u32::MAX)
                    && n <= bytes@.len(),
                None => r is None,
            },
    {
        let (key_len, n1) = match decode_varint(bytes) {
            Some(p) => p,
            None => {
                return None;
            },
        };
        let rest = slice_subrange(bytes, n1, bytes.len());
        assert(rest@ =~= bytes@.skip(n1 as int));
        let (value_len, n2) = match decode_varint(rest) {
            Some(p) => p,
            None => {
                return None;
            },
        };
        let start: usize = n1 + n2;
        let avail: usize = bytes.len() - start;
        if key_len > avail as u64 {
            return None;
        }
        let key_len: usize = key_len as usize;
        if value_len > (avail - key_len) as u64 {
            return None;
        }
        let value_len: usize = value_len as usize;
        let key = slice_to_vec(slice_subrange(bytes, start, start + key_len));
        let value = slice_to_vec(
            slice_subrange(bytes, start + key_len, start + key_len + value_len),
        );
        Some((Cell::new_leaf(key, value), start + key_len + value_len))
    }

    /// Decode an interior cell from the start of `bytes`.
    ///
    /// Returns the cell and the number of bytes consumed.
    pub fn decode_interior(bytes: &[u8]) -> (r: Option<(Self, usize)>)
        ensures
            match spec_decode_interior(bytes@) {
                Some((c, n)) => r matches Some((cell, used)) && cell@ == c && used == n
                    && cell.cell_type == CellType::Interior && cell.value@.len() == 0 && n
                    <= bytes@.len(),
                None => r is None,
            },
    {
        if bytes.len() < 4 {
            return None;
        }
        let left_child = read_u32_be(bytes, 0);
        let rest = slice_subrange(bytes, 4, bytes.len());
        assert(rest@ =~= bytes@.skip(4));
        let (key_len, n) = match decode_varint(rest) {
            Some(p) => p,
            None => {
                return None;
            },
        };
        let start: usize = 4 + n;
        let avail: usize = bytes.len() - start;
        if key_len > avail as u64 {
            return None;
        }
        let key_len: usize = key_len as usize;
        let key = slice_to_vec(slice_subrange(bytes, start, start + key_len));
        Some((Cell::new_interior(key, PageId::new(left_child)), start + key_len))
    }
}

} // verus!
