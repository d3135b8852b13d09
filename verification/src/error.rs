use vstd::prelude::*;
use vstd::string::*;

verus! {

/// A user-correctable validation failure. Every variant is terminal for the
/// operation that raised it and leaves the ledger untouched.
#[derive(Debug, Clone, PartialEq, Eq)]
pub enum ValidationErrorKind {
    /// The supplied amount (in cents) was zero or negative.
    AmountTooSmall { amount: i64 },
    InvalidDate { provided: String, expected_format: String },
    SubcategoryNotFound { name: String },
    SubcategoryAlreadyExists { name: String },
    RecordNotFound { id: usize },
    /// The subcategory still has dependent records; `count` is the exact
    /// number of records that reference it.
    SubcategoryHasRecords { name: String, count: usize },
    /// The reserved `miscellaneous` subcategory cannot be added, renamed,
    /// or deleted.
    CannotDeleteMiscellaneous,
    CategoryImmutable { category: usize },
    InvalidCategoryName { name: String, reason: String },
    InvalidName { name: String, reason: String },
    InvalidAmount { reason: String },
    TrackerAlreadyInitialized,
    InvalidSubcommand { subcommand: String },
}

/// The top-level error type: validation failures plus structural failures of
/// the persistence collaborator, surfaced unchanged.
#[derive(Debug, Clone, PartialEq, Eq)]
pub enum CliError {
    FileNotFound(String),
    InvalidJson(String),
    ValidationError(ValidationErrorKind),
    PermissionDenied(String),
    CorruptedData { backup_restored: bool, timestamp: String },
    FileAlreadyExists,
    Other(String),
}

pub fn invalid_subcommand_error(cmd: &str) -> (r: CliError)
    ensures
        r matches CliError::ValidationError(ValidationErrorKind::InvalidSubcommand {
            subcommand,
        }) && subcommand@ == cmd@,
{
    CliError::ValidationError(ValidationErrorKind::InvalidSubcommand {
        subcommand: String::from_str(cmd),
    })
}

} // verus!
