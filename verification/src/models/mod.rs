//! The records that the lookups exchange.
pub mod batch;
pub mod config;
pub mod query;
pub mod standard;

pub use batch::{BatchControl, BatchInput, BatchItemResult, BatchRow};
pub use config::AppConfig;
pub use query::{MatchResult, QueryResult, QueryStatus, ValidityLine, ValidityResult};
pub use standard::{BrowseEntry, FileInfo, StandardEntry};
