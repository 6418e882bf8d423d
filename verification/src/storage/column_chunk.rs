//! Columns of the in-memory groups. They are the columns of the page-backed groups.

pub use crate::table::column::ColumnChunk;
