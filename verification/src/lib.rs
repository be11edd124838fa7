//! Splitting Parquet columns into pages.

pub mod array;
pub mod bytes;
pub mod cdc;
pub mod chunker;
pub mod columns;
pub mod convert;
pub mod datatype;
pub mod decimal;
pub mod encode;
pub mod error;
pub mod float;
pub mod images;
pub mod levels;
pub mod nested;
pub mod options;
pub mod page_laws;
pub mod pages;
pub mod parquet;
pub mod plan;
pub mod rows;
pub mod schema;
mod sealed;
pub mod spans;
pub mod text;
pub mod transverse;
