//! A binary container for a batch of source files, the flattened syntax tree
//! of each, and the diagnostics attached to byte ranges of their text.

pub mod asset;
pub mod asset_gen;
pub mod codec;
pub mod error;
pub mod laws;
pub mod layout;
pub mod parse;
pub mod stream;
pub mod string_table;
pub mod wire;
