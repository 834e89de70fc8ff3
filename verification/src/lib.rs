//! Batch conversion of XML status documents into one delimited summary
//! table: the extraction rules for the item code and the most recent status,
//! the per-file isolation of failures, and the quoted rendering of the
//! output table.

pub mod batch;
pub mod extract;
pub mod table;
pub mod text;
pub mod xml;
