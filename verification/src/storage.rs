//! Storage layer: the database file's format and page management.

pub mod crc;
pub mod disk_manager;
pub mod file_header;
pub mod freelist;
