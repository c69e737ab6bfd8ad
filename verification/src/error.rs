//! The failure taxonomy of the storage layer.

use vstd::prelude::*;

verus! {

/// The mathematical value of an [`Error`], with every string a character
/// sequence.
pub ghost enum ErrorModel {
    InvalidInput,
    MissingItem(Seq<char>),
    MissingParent(Seq<char>),
    DecodeError(Seq<char>),
    StorageIOError,
    TransactionAbort { item_id: Seq<char>, cause: Box<ErrorModel> },
}

/// What went wrong while serving a storage call.
///
/// Every failure inside an atomic add/update is returned as a single
/// [`Error::TransactionAbort`] wrapping the original cause, and the store is
/// left exactly as it was.
#[derive(Debug, PartialEq, Eq)]
pub enum Error {
    /// The submitted record is unusable: an empty id on add.
    InvalidInput,
    /// The update target was not found; carries the requested id.
    MissingItem(String),
    /// A referenced parent does not exist; carries the referenced id.
    MissingParent(String),
    /// Stored bytes do not decode to an item record; carries the key.
    DecodeError(String),
    /// The underlying storage engine failed.
    StorageIOError,
    /// A failure occurred mid-transaction; carries the id of the item whose
    /// call was aborted and the original cause.
    TransactionAbort { item_id: String, cause: Box<Error> },
}

/// The model of an error value, with every string taken to its character
/// sequence.
pub open spec fn error_model_of(e: Error) -> ErrorModel
    decreases e,
{
    match e {
        Error::InvalidInput => ErrorModel::InvalidInput,
        Error::MissingItem(id) => ErrorModel::MissingItem(id@),
        Error::MissingParent(id) => ErrorModel::MissingParent(id@),
        Error::DecodeError(key) => ErrorModel::DecodeError(key@),
        Error::StorageIOError => ErrorModel::StorageIOError,
        Error::TransactionAbort { item_id, cause } => ErrorModel::TransactionAbort {
            item_id: item_id@,
            cause: Box::new(error_model_of(*cause)),
        },
    }
}

impl View for Error {
    type V = ErrorModel;

    open spec fn view(&self) -> ErrorModel {
        error_model_of(*self)
    }
}

} // verus!
