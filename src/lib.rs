//! A directory lister: argument parsing, entry resolution, ordering,
//! filtering and rendering, each stated and proved over a plain model.

pub mod config;
pub mod decimal;
pub mod order;
pub mod entry;
pub mod listing;

pub use config::{CLIOptions, Config};
pub use entry::{Entry, EntryType, Identity, ListError, RawEntry, RawMetadata, Timestamp};
pub use listing::CLI;
