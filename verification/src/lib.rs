//! Reading and writing `.cuts` archives: a small header, a list of
//! encrypted (optionally LZ4-compressed) assets, and an encrypted index
//! that records where each asset lives and what it hashes to.

pub mod buf;
pub mod types;
pub mod format;
pub mod crypto;
pub mod codec;
pub mod reader;
pub mod writer;
pub mod laws;
pub mod archive;
pub mod paths;
