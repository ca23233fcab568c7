//! Common types used throughout the storage engine.
use vstd::prelude::*;

pub mod endian;
pub mod key_order;
pub mod page_id;
pub mod text;
pub mod varint;

verus! {

/// Page size in bytes.
pub const PAGE_SIZE: usize = 4096;

/// Largest key the tree accepts: a quarter of a page.
pub const MAX_KEY_SIZE: usize = PAGE_SIZE / 4;

/// Largest value stored inline: half a page.
pub const MAX_VALUE_SIZE: usize = PAGE_SIZE / 2;

/// Fewest keys a node is meant to hold once rebalancing exists.
pub const MIN_KEYS: usize = 2;

/// Default cap on the keys of a leaf node.
pub const DEFAULT_MAX_LEAF_KEYS: usize = 4;

/// Default cap on the keys of an interior node.
pub const DEFAULT_MAX_INTERIOR_KEYS: usize = 3;

/// Node limits requested for a tree.
#[derive(Debug, Clone)]
pub struct BTreeConfig {
    /// Maximum keys per leaf node.
    pub max_leaf_keys: usize,
    /// Maximum keys per interior node.
    pub max_interior_keys: usize,
}

impl Default for BTreeConfig {
    fn default() -> (r: Self)
        ensures
            r.max_leaf_keys == DEFAULT_MAX_LEAF_KEYS,
            r.max_interior_keys == DEFAULT_MAX_INTERIOR_KEYS,
    {
        BTreeConfig {
            max_leaf_keys: DEFAULT_MAX_LEAF_KEYS,
            max_interior_keys: DEFAULT_MAX_INTERIOR_KEYS,
        }
    }
}

impl BTreeConfig {
    /// Limits as given, each raised to `MIN_KEYS` where it is below.
    pub fn new(max_leaf_keys: usize, max_interior_keys: usize) -> (r: Self)
        ensures
            r.max_leaf_keys == if max_leaf_keys < MIN_KEYS { MIN_KEYS } else { max_leaf_keys },
            r.max_interior_keys == if max_interior_keys < MIN_KEYS { MIN_KEYS } else {
                max_interior_keys
            },
    {
        BTreeConfig {
            max_leaf_keys: if max_leaf_keys < MIN_KEYS { MIN_KEYS } else { max_leaf_keys },
            max_interior_keys: if max_interior_keys < MIN_KEYS { MIN_KEYS } else {
                max_interior_keys
            },
        }
    }

    /// Limits large enough that only page capacity decides a split.
    pub fn high_capacity() -> (r: Self)
        ensures
            r.max_leaf_keys == 1000,
            r.max_interior_keys == 1000,
    {
        BTreeConfig { max_leaf_keys: 1000, max_interior_keys: 1000 }
    }
}

/// The kind of a page, as tagged in its first byte.
#[derive(Debug, Clone, Copy, PartialEq, Eq, Structural)]
pub enum PageType {
    /// Free or unallocated page (tag 0x00).
    Free,
    /// Interior node of a table tree (tag 0x02).
    InteriorTable,
    /// Interior node of an index tree (tag 0x05).
    InteriorIndex,
    /// Leaf node of a table tree (tag 0x0D).
    LeafTable,
    /// Leaf node of an index tree (tag 0x0A).
    LeafIndex,
    /// Overflow page for large payloads (tag 0x0F).
    Overflow,
}

impl PageType {
    /// Whether pages of this kind hold key-value cells.
    pub open spec fn spec_is_leaf(self) -> bool {
        self == PageType::LeafTable || self == PageType::LeafIndex
    }

    /// Whether pages of this kind hold separator cells and child pointers.
    pub open spec fn spec_is_interior(self) -> bool {
        self == PageType::InteriorTable || self == PageType::InteriorIndex
    }

    /// The tag byte that stands for this kind on disk.
    pub open spec fn spec_to_byte(self) -> u8 {
        match self {
            PageType::Free => 0x00,
            PageType::InteriorTable => 0x02,
            PageType::InteriorIndex => 0x05,
            PageType::LeafTable => 0x0D,
            PageType::LeafIndex => 0x0A,
            PageType::Overflow => 0x0F,
        }
    }

    /// The kind a tag byte stands for, if any.
    pub open spec fn spec_from_byte(b: u8) -> Option<PageType> {
        if b == 0x00 {
            Some(PageType::Free)
        } else if b == 0x02 {
            Some(PageType::InteriorTable)
        } else if b == 0x05 {
            Some(PageType::InteriorIndex)
        } else if b == 0x0D {
            Some(PageType::LeafTable)
        } else if b == 0x0A {
            Some(PageType::LeafIndex)
        } else if b == 0x0F {
            Some(PageType::Overflow)
        } else {
            None
        }
    }

    /// Check if this is a leaf page type.
    #[verifier::when_used_as_spec(spec_is_leaf)]
    pub fn is_leaf(self) -> (r: bool)
        ensures
            r == self.spec_is_leaf(),
    {
        match self {
            PageType::LeafTable => true,
            PageType::LeafIndex => true,
            _ => false,
        }
    }

    /// Check if this is an interior page type.
    #[verifier::when_used_as_spec(spec_is_interior)]
    pub fn is_interior(self) -> (r: bool)
        ensures
            r == self.spec_is_interior(),
    {
        match self {
            PageType::InteriorTable => true,
            PageType::InteriorIndex => true,
            _ => false,
        }
    }

    /// The kind that a tag byte stands for; `None` for an unknown tag.
    #[verifier::when_used_as_spec(spec_from_byte)]
    pub fn from_byte(b: u8) -> (r: Option<PageType>)
        ensures
            r == PageType::spec_from_byte(b),
    {
        match b {
            0x00 => Some(PageType::Free),
            0x02 => Some(PageType::InteriorTable),
            0x05 => Some(PageType::InteriorIndex),
            0x0D => Some(PageType::LeafTable),
            0x0A => Some(PageType::LeafIndex),
            0x0F => Some(PageType::Overflow),
            _ => None,
        }
    }

    /// The tag byte of this kind.
    #[verifier::when_used_as_spec(spec_to_byte)]
    pub fn to_byte(self) -> (r: u8)
        ensures
            r == self.spec_to_byte(),
    {
        match self {
            PageType::Free => 0x00,
            PageType::InteriorTable => 0x02,
            PageType::InteriorIndex => 0x05,
            PageType::LeafTable => 0x0D,
            PageType::LeafIndex => 0x0A,
            PageType::Overflow => 0x0F,
        }
    }

    /// Every kind is recovered from its own tag byte.
    pub proof fn lemma_tag_roundtrip(self)
        ensures
            PageType::spec_from_byte(self.spec_to_byte()) == Some(self),
    {
    }
}

} // verus!
