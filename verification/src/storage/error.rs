//! Errors of the storage engine.

use vstd::prelude::*;

use crate::index::btree::BTreeError;
use vstd::std_specs::convert::FromSpecImpl;

verus! {

/// Why a storage operation failed.
#[derive(Debug, Clone, Copy, PartialEq, Eq, Structural)]
pub enum StorageError {
    /// The file system reported an error.
    IoError,
    /// There is no such entity.
    NotFound,
    /// An index could not be changed.
    IndexError,
    /// The record is too large for a page.
    PageFull,
    /// The page ids that a slot reference can hold are used up.
    SlotOverflow,
    /// The entity exists already.
    AlreadyExists,
    /// Id 0 stands for no entity.
    InvalidId,
    /// Another transaction is in the way.
    TxConflict,
    /// The transaction was aborted.
    TxAborted,
}

impl StorageError {
    /// The message of the error.
    pub open spec fn spec_message(self) -> Seq<char> {
        match self {
            StorageError::IoError => "I/O error"@,
            StorageError::NotFound => "entity not found"@,
            StorageError::IndexError => "index error"@,
            StorageError::PageFull => "page full"@,
            StorageError::SlotOverflow => "slot reference overflow"@,
            StorageError::AlreadyExists => "entity already exists"@,
            StorageError::InvalidId => "id 0 is reserved and may not be used"@,
            StorageError::TxConflict => "transaction conflict — retry"@,
            StorageError::TxAborted => "transaction aborted"@,
        }
    }

    /// The message of each error.
    pub proof fn law_messages(self)
        ensures
            self is IoError ==> self.spec_message() == "I/O error"@,
            self is NotFound ==> self.spec_message() == "entity not found"@,
            self is IndexError ==> self.spec_message() == "index error"@,
            self is PageFull ==> self.spec_message() == "page full"@,
            self is SlotOverflow ==> self.spec_message() == "slot reference overflow"@,
            self is AlreadyExists ==> self.spec_message() == "entity already exists"@,
            self is InvalidId ==> self.spec_message() == "id 0 is reserved and may not be used"@,
            self is TxConflict ==> self.spec_message() == "transaction conflict — retry"@,
            self is TxAborted ==> self.spec_message() == "transaction aborted"@,
    {
    }

    /// The message of the error.
    pub fn message(&self) -> (r: &'static str)
        ensures
            r@ == self.spec_message(),
    {
        match self {
            StorageError::IoError => "I/O error",
            StorageError::NotFound => "entity not found",
            StorageError::IndexError => "index error",
            StorageError::PageFull => "page full",
            StorageError::SlotOverflow => "slot reference overflow",
            StorageError::AlreadyExists => "entity already exists",
            StorageError::InvalidId => "id 0 is reserved and may not be used",
            StorageError::TxConflict => "transaction conflict — retry",
            StorageError::TxAborted => "transaction aborted",
        }
    }
}

impl FromSpecImpl<BTreeError> for StorageError {
    open spec fn obeys_from_spec() -> bool {
        true
    }

    open spec fn from_spec(v: BTreeError) -> StorageError {
        StorageError::IndexError
    }
}

impl From<BTreeError> for StorageError {
    fn from(e: BTreeError) -> (r: StorageError) {
        StorageError::IndexError
    }
}

} // verus!
