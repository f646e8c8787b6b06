//! The errors of the store.
use vstd::prelude::*;

verus! {

/// Why an operation of the store failed.
#[derive(Debug, Clone, Copy, PartialEq, Eq, Structural)]
pub enum StorageError {
    /// The requested frame runs past the end of the log.
    UnexpectedEof,
    /// A complete frame whose payload is not a valid encoding.
    CorruptFrame,
    /// A payload too large for the 32-bit size prefix of a frame.
    RecordTooLarge,
    /// `begin_transaction` while a transaction is open.
    TransactionAlreadyActive,
    /// `commit` while no transaction is open.
    NoActiveTransaction,
}

impl StorageError {
    /// A short description of the error.
    pub fn message(&self) -> (r: String)
        ensures
            r@ == match self {
                StorageError::UnexpectedEof => "unexpected end of log"@,
                StorageError::CorruptFrame => "corrupt frame"@,
                StorageError::RecordTooLarge => "record too large"@,
                StorageError::TransactionAlreadyActive => "transaction already in progress"@,
                StorageError::NoActiveTransaction => "no active transaction"@,
            },
    {
        match self {
            StorageError::UnexpectedEof => "unexpected end of log".to_owned(),
            StorageError::CorruptFrame => "corrupt frame".to_owned(),
            StorageError::RecordTooLarge => "record too large".to_owned(),
            StorageError::TransactionAlreadyActive => "transaction already in progress".to_owned(),
            StorageError::NoActiveTransaction => "no active transaction".to_owned(),
        }
    }
}

} // verus!
