//! A verified codec for moving firmware images between two textual
//! encodings: Intel-HEX style line records and a dense fixed-width
//! hex dump organised into word chunks.

pub mod checksum;
pub mod cli;
pub mod hexdigits;
pub mod laws;
pub mod lines;
pub mod payload;
