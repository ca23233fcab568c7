//! Error types for the storage engine.
use crate::types::page_id::PageId;
use crate::types::text::{decimal, decimal_digits};
use vstd::prelude::*;

verus! {

/// The error type of the operating system's I/O calls, carried through
/// unchanged.
#[verifier::external_type_specification]
#[verifier::external_body]
pub struct ExIoError(std::io::Error);

/// Errors that can occur in the storage engine.
#[derive(Debug)]
pub enum StorageError {
    /// I/O error from the underlying file system.
    Io(std::io::Error),
    /// Requested page was not found.
    PageNotFound(PageId),
    /// Page does not have enough space for the operation.
    PageFull { page_id: PageId, needed: usize, available: usize },
    /// Key exceeds maximum allowed size.
    KeyTooLarge { size: usize, max: usize },
    /// Value exceeds maximum allowed size.
    ValueTooLarge { size: usize, max: usize },
    /// Data corruption detected (e.g., checksum mismatch).
    Corruption(String),
    /// Invalid page format or type.
    InvalidPage(String),
    /// Buffer pool has no available frames.
    BufferPoolExhausted,
    /// Invalid operation for the current state.
    InvalidOperation(String),
    /// Key not found (for operations that require an existing key).
    KeyNotFound,
    /// Database file is corrupted or has an invalid format.
    InvalidDatabaseFile(String),
}

/// Calls `to_string` on an error of the operating system's I/O calls,
/// which gives the text that the error displays as.
#[verifier::external_body]
fn io_error_text(e: &std::io::Error) -> String {
    e.to_string()
}

impl StorageError {
    /// The text of the error, but for the text of an I/O error, which
    /// the operating system supplies.
    pub open spec fn spec_message(self) -> Seq<char> {
        match self {
            StorageError::Io(_) => "I/O error: "@,
            StorageError::PageNotFound(id) => "Page "@ + id.spec_text() + " not found"@,
            StorageError::PageFull { page_id, needed, available } => "Page "@
                + page_id.spec_text() + " is full, need "@ + decimal_digits(needed as nat)
                + " bytes but only "@ + decimal_digits(available as nat) + " available"@,
            StorageError::KeyTooLarge { size, max } => "Key too large: "@ + decimal_digits(
                size as nat,
            ) + " bytes (max: "@ + decimal_digits(max as nat) + ")"@,
            StorageError::ValueTooLarge { size, max } => "Value too large: "@ + decimal_digits(
                size as nat,
            ) + " bytes (max: "@ + decimal_digits(max as nat) + ")"@,
            StorageError::Corruption(msg) => "Corruption detected: "@ + msg@,
            StorageError::InvalidPage(msg) => "Invalid page: "@ + msg@,
            StorageError::BufferPoolExhausted => "Buffer pool exhausted: no available frames"@,
            StorageError::InvalidOperation(msg) => "Invalid operation: "@ + msg@,
            StorageError::KeyNotFound => "Key not found"@,
            StorageError::InvalidDatabaseFile(msg) => "Invalid database file: "@ + msg@,
        }
    }

    /// The text of the error. An I/O error shows as `I/O error: ` and the
    /// text of the operating system's error.
    pub fn to_string(&self) -> (r: String)
        ensures
            !(self is Io) ==> r@ == self.spec_message(),
            self is Io ==> r@.len() >= self.spec_message().len() && r@.take(
                self.spec_message().len() as int,
            ) == self.spec_message(),
    {
        let mut text = String::new();
        match self {
            StorageError::Io(e) => {
                text.push_str("I/O error: ");
                let ghost head = text@;
                text.push_str(io_error_text(e).as_str());
                assert(text@.take(head.len() as int) =~= head);
            },
            StorageError::PageNotFound(id) => {
                text.push_str("Page ");
                text.push_str(id.to_string().as_str());
                text.push_str(" not found");
                assert(text@ =~= self.spec_message());
            },
            StorageError::PageFull { page_id, needed, available } => {
                text.push_str("Page ");
                text.push_str(page_id.to_string().as_str());
                text.push_str(" is full, need ");
                text.push_str(decimal(*needed as u64).as_str());
                text.push_str(" bytes but only ");
                text.push_str(decimal(*available as u64).as_str());
                text.push_str(" available");
                assert(text@ =~= self.spec_message());
            },
            StorageError::KeyTooLarge { size, max } => {
                text.push_str("Key too large: ");
                text.push_str(decimal(*size as u64).as_str());
                text.push_str(" bytes (max: ");
                text.push_str(decimal(*max as u64).as_str());
                text.push_str(")");
                assert(text@ =~= self.spec_message());
            },
            StorageError::ValueTooLarge { size, max } => {
                text.push_str("Value too large: ");
                text.push_str(decimal(*size as u64).as_str());
                text.push_str(" bytes (max: ");
                text.push_str(decimal(*max as u64).as_str());
                text.push_str(")");
                assert(text@ =~= self.spec_message());
            },
            StorageError::Corruption(msg) => {
                text.push_str("Corruption detected: ");
                text.push_str(msg.as_str());
                assert(text@ =~= self.spec_message());
            },
            StorageError::InvalidPage(msg) => {
                text.push_str("Invalid page: ");
                text.push_str(msg.as_str());
                assert(text@ =~= self.spec_message());
            },
            StorageError::BufferPoolExhausted => {
                text.push_str("Buffer pool exhausted: no available frames");
                assert(text@ =~= self.spec_message());
            },
            StorageError::InvalidOperation(msg) => {
                text.push_str("Invalid operation: ");
                text.push_str(msg.as_str());
                assert(text@ =~= self.spec_message());
            },
            StorageError::KeyNotFound => {
                text.push_str("Key not found");
                assert(text@ =~= self.spec_message());
            },
            StorageError::InvalidDatabaseFile(msg) => {
                text.push_str("Invalid database file: ");
                text.push_str(msg.as_str());
                assert(text@ =~= self.spec_message());
            },
        }
        text
    }

    /// Create a corruption error with a message.
    pub fn corruption(msg: &str) -> (r: Self)
        ensures
            r matches StorageError::Corruption(s) && s@ == msg@,
    {
        StorageError::Corruption(msg.to_owned())
    }

    /// Create an invalid page error.
    pub fn invalid_page(msg: &str) -> (r: Self)
        ensures
            r matches StorageError::InvalidPage(s) && s@ == msg@,
    {
        StorageError::InvalidPage(msg.to_owned())
    }

    /// Create an invalid operation error.
    pub fn invalid_operation(msg: &str) -> (r: Self)
        ensures
            r matches StorageError::InvalidOperation(s) && s@ == msg@,
    {
        StorageError::InvalidOperation(msg.to_owned())
    }

    /// Create an invalid database file error.
    pub fn invalid_db(msg: &str) -> (r: Self)
        ensures
            r matches StorageError::InvalidDatabaseFile(s) && s@ == msg@,
    {
        StorageError::InvalidDatabaseFile(msg.to_owned())
    }
}

} // verus!
