//! A verified decoder for the ECOFF object-file container format.
//!
//! The decoder consumes a fully buffered byte source and produces structured
//! records for the file header, optional header, section table with payloads,
//! symbolic (debug) header, and the local and external string tables — or a
//! structured error describing why the input cannot be decoded.

pub mod endian;
pub mod error;
pub mod headers;
pub mod object;
pub mod reader;
pub mod strings;
