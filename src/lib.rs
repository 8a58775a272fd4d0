//! A streaming reader for S-expressions: bytes in, a shared tree of tagged
//! values out, and a printer that renders the tree back to text.

pub mod input;
pub mod parser;
pub mod printer;
pub mod round_trip;
pub mod types;
