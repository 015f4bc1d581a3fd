//! Cleaning of CSV column names.
//!
//! A header row is turned into lowercase ASCII identifiers that are never
//! empty and never repeat, and the rows below it are brought to one width.

pub mod charset;
pub mod digits;
pub mod strings;
pub mod name;
pub mod headers;
pub mod rows;
