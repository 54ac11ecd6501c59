//! Codec for the RPA packed-archive container format: header and version
//! detection, obfuscation-key derivation, index decoding (structured and
//! heuristic), entry storage and retrieval, and archive rebuilding.
pub mod clock;
pub mod editor;
pub mod entry;
pub mod error;
pub mod header;
pub mod heuristic;
pub mod hexnum;
pub mod index;
pub mod listing;
pub mod mask;
pub mod pickle;
pub mod store;
pub mod strutil;
pub mod toast;
pub mod version;
pub mod zlib;
