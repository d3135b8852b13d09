//! A personal income and expense ledger kept in a single JSON document.
//!
//! The heart of the crate is the `TrackerData` aggregate: records,
//! subcategories, and the invariants that keep them mutually consistent
//! across every create, update and delete operation. Queries (filtered
//! listings, totals, statistics), the at-rest document codec, and the CSV
//! export are all verified against the specifications in each module;
//! command-line handling, file access and terminal rendering live outside
//! the library.

pub mod amount;
pub mod clock;
pub mod codec;
pub mod context;
pub mod csv;
pub mod date;
pub mod error;
pub mod ledger;
pub mod model;
pub mod ops;
pub mod query;
pub mod response;
pub mod text;

pub use context::GlobalContext;
pub use error::CliError;
pub use error::ValidationErrorKind;
pub use error::invalid_subcommand_error;
pub use ledger::TrackerData;
pub use ops::AddRequest;
pub use ops::UpdateRequest;
pub use query::DescribeData;
pub use query::ListFilter;
pub use query::Total;
pub use response::CliResponse;
pub use response::CliResult;
pub use response::ResponseContent;
pub use model::Category;
pub use model::Currency;
pub use model::ExportFileType;
pub use model::Record;
pub use model::Subcategory;
