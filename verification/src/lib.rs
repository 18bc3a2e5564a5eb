//! Visual AWK: re-splits a captured byte buffer into a table of cells under
//! live user control and renders that table as CSV.

pub mod byte_trie;
pub mod csv_output;
pub mod parser;
pub mod parsers;
pub mod pattern;
pub mod transformers;
pub mod views;
pub mod websocket_connection;
pub mod wire;
