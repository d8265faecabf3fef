//! Conversion of the Marktstammdatenregister XML export into columnar data.
//!
//! The library holds the schema model, the XML state machines that turn a
//! document into columns of optional strings (one fed by `quick_xml`, one by
//! xml-rs), and the typed encoding of those columns for a Parquet writer.

pub mod archive_names;
pub mod archive_parser;
pub mod columns;
pub mod parser;
pub mod schema;
