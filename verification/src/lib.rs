//! `dff` — a set-difference tool for delimited data sources.
//!
//! Two inputs (plain-text line lists or CSV columns) are each reduced to a
//! deduplicated set of string values; the library then reports every value
//! present in the primary source but absent from the secondary one.

pub mod csvdata;
pub mod diff;
pub mod error;
pub mod format;
pub mod output;
pub mod text;
pub mod values;
