//! What can go wrong in the store.

use vstd::prelude::*;

verus! {

/// `std::io::Error`, carried through without being looked into.
#[verifier::external_type_specification]
#[verifier::external_body]
pub struct ExIoError(std::io::Error);

/// An error of the store.
#[derive(Debug)]
pub enum Error {
    /// The database, or what was asked of it, is not valid.
    DatabaseError(String),
    /// The file could not be read or written.
    IoError(std::io::Error),
    /// A buffer is too short for what should stand in it.
    ZerocopyError(String),
    /// The transaction was invalidated by an earlier operation that failed.
    TransactionFailed,
}

pub type Result<T> = std::result::Result<T, Error>;

impl Error {
    /// Whether this is the error for a buffer that cannot be viewed as the structure asked for.
    pub open spec fn is_conversion(self) -> bool {
        self matches Error::ZerocopyError(message) && message@ == "Zerocopy conversion error"@
    }

    /// Whether this is the error for a buffer that is too short for a copy of the structure.
    pub open spec fn is_size(self) -> bool {
        self matches Error::ZerocopyError(message) && message@ == "Zerocopy size error"@
    }

    /// Whether this is a database error with the message `text`.
    pub open spec fn is_database(self, text: Seq<char>) -> bool {
        self matches Error::DatabaseError(message) && message@ == text
    }

    /// The error for a buffer that cannot be viewed as the structure asked for.
    pub fn conversion() -> (r: Error)
        ensures
            r.is_conversion(),
    {
        Error::ZerocopyError("Zerocopy conversion error".to_owned())
    }

    /// The error for a buffer that is too short for a copy of the structure.
    pub fn size() -> (r: Error)
        ensures
            r.is_size(),
    {
        Error::ZerocopyError("Zerocopy size error".to_owned())
    }

    /// A database error with a fixed message.
    pub fn database(text: &str) -> (r: Error)
        ensures
            r.is_database(text@),
    {
        Error::DatabaseError(text.to_owned())
    }
}

} // verus!
