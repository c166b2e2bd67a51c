//! Aggregation of newline-delimited JSON log records into summary tables.
//!
//! Records are grouped by a key extracted through a dotted accessor path,
//! per-field statistics (count, average) are folded over the stream, and the
//! result is rendered as delimited or fixed-width text.

pub mod aggregate;
pub mod config;
pub mod fixed;
pub mod json;
pub mod log_record;
pub mod operation;
pub mod laws;
pub mod order;
pub mod visualize;

pub use crate::aggregate::{Field, Index, Table, TableDef, TableRow};
pub use crate::config::{build_table_def, Config};
pub use crate::fixed::Fixed;
pub use crate::json::JsonValue;
pub use crate::log_record::{Accessor, LogRecord, LogValue, LogValueType};
pub use crate::operation::{build_operation, Op, OpAverage, OpCount, OpType};
pub use crate::visualize::{display_as_csv, display_as_markdown, format_string, VisualizeType};
