//! Errors of the database as a whole.

use vstd::prelude::*;

verus! {

/// Why an operation on the database failed. Every variant carries a message.
#[derive(Debug, PartialEq, Eq)]
pub enum RGraphError {
    /// A query could not be parsed.
    Syntax(String),
    /// A query makes no sense.
    Semantic(String),
    /// A value has the wrong type.
    Type(String),
    /// An argument is wrong.
    Argument(String),
    /// Something is not there.
    NotFound(String),
    /// Something is there already.
    AlreadyExists(String),
    /// Reading or writing failed.
    Io(String),
    /// Stored data is damaged.
    Corruption(String),
    /// An index failed.
    Index(String),
    /// The storage engine failed.
    Storage(String),
    /// A transaction failed.
    Transaction(String),
    /// There is not enough of something.
    ResourceExhausted(String),
    /// The database has a bug.
    Internal(String),
}

/// The code that a program exits with after an error.
pub open spec fn exit_code(err: RGraphError) -> i32 {
    match err {
        RGraphError::Syntax(_) => 2,
        RGraphError::Semantic(_) => 3,
        RGraphError::Type(_) => 4,
        RGraphError::Argument(_) => 5,
        RGraphError::NotFound(_) => 6,
        RGraphError::AlreadyExists(_) => 7,
        RGraphError::Io(_) => 8,
        RGraphError::Corruption(_) => 9,
        RGraphError::Index(_) => 10,
        RGraphError::Storage(_) => 11,
        RGraphError::Transaction(_) => 12,
        RGraphError::ResourceExhausted(_) => 13,
        RGraphError::Internal(_) => 101,
    }
}

/// Is it the same kind of error, whatever the message?
pub open spec fn same_kind(a: RGraphError, b: RGraphError) -> bool {
    match a {
        RGraphError::Syntax(_) => b is Syntax,
        RGraphError::Semantic(_) => b is Semantic,
        RGraphError::Type(_) => b is Type,
        RGraphError::Argument(_) => b is Argument,
        RGraphError::NotFound(_) => b is NotFound,
        RGraphError::AlreadyExists(_) => b is AlreadyExists,
        RGraphError::Io(_) => b is Io,
        RGraphError::Corruption(_) => b is Corruption,
        RGraphError::Index(_) => b is Index,
        RGraphError::Storage(_) => b is Storage,
        RGraphError::Transaction(_) => b is Transaction,
        RGraphError::ResourceExhausted(_) => b is ResourceExhausted,
        RGraphError::Internal(_) => b is Internal,
    }
}

/// Errors of different kinds have different exit codes, and none has that of
/// success.
pub proof fn law_exit_codes_distinct(a: RGraphError, b: RGraphError)
    ensures
        exit_code(a) == exit_code(b) <==> same_kind(a, b),
        exit_code(a) != 0,
{
}

/// The exit codes of the kinds of errors, in the order in which a statement meets them.
pub proof fn law_exit_codes(err: RGraphError)
    ensures
        err is Syntax ==> exit_code(err) == 2,
        err is Semantic ==> exit_code(err) == 3,
        err is Type ==> exit_code(err) == 4,
        err is Argument ==> exit_code(err) == 5,
        err is NotFound ==> exit_code(err) == 6,
        err is AlreadyExists ==> exit_code(err) == 7,
        err is Io ==> exit_code(err) == 8,
        err is Corruption ==> exit_code(err) == 9,
        err is Index ==> exit_code(err) == 10,
        err is Storage ==> exit_code(err) == 11,
        err is Transaction ==> exit_code(err) == 12,
        err is ResourceExhausted ==> exit_code(err) == 13,
        err is Internal ==> exit_code(err) == 101,
{
}

/// The code that a program exits with after an error.
pub fn exit_code_for(err: &RGraphError) -> (r: i32)
    ensures
        r == exit_code(*err),
{
    match err {
        RGraphError::Syntax(_) => 2,
        RGraphError::Semantic(_) => 3,
        RGraphError::Type(_) => 4,
        RGraphError::Argument(_) => 5,
        RGraphError::NotFound(_) => 6,
        RGraphError::AlreadyExists(_) => 7,
        RGraphError::Io(_) => 8,
        RGraphError::Corruption(_) => 9,
        RGraphError::Index(_) => 10,
        RGraphError::Storage(_) => 11,
        RGraphError::Transaction(_) => 12,
        RGraphError::ResourceExhausted(_) => 13,
        RGraphError::Internal(_) => 101,
    }
}

} // verus!
