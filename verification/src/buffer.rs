//! Buffer pool: in-memory page cache with least-recently-used eviction.

pub mod lru;
pub mod pool;
