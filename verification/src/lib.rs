//! Core of a log viewer: indexing of large files, detection and parsing of log
//! formats, a sidecar cache for parsed indexes, searching, and the decisions
//! of the viewer itself.
//!
//! Everything here works on plain values. Reading files, windows and threads
//! are left to the program that uses the library.
pub mod cache;
pub mod chars;
pub mod loader;
pub mod log_panel;
pub mod numbers;
pub mod open;
pub mod parser;
pub mod paths;
pub mod recent;
pub mod search;
pub mod text;
pub mod types;
pub mod viewer;

pub use loader::{index_file, index_file_with_progress, load_file};
pub use parser::{parse_file, parse_index};
pub use types::{AppError, LineIndex, LogEntry, LogFile, LogLevel, ParsedIndex};
