//! Parsers for aeronautical data.

pub mod field15;
