//! Error taxonomy of the archive codec. Structural failures (header, key,
//! compression) abort a whole load; accessor and save failures are surfaced
//! per call.
use vstd::prelude::*;

verus! {

/// Everything that can go wrong inside the codec.
#[derive(Debug, Clone, PartialEq, Eq)]
pub enum CodecError {
    /// The header tag matches none of the recognized versions, or the header
    /// line is too short or malformed to carry an index offset.
    UnsupportedFormat,
    /// A key fragment in the header line is not a valid 32-bit hexadecimal
    /// word.
    KeyParseError,
    /// The block at the header-declared offset is not a valid zlib stream.
    DecompressionError,
    /// The decompressed index's root value is not a mapping.
    MalformedIndex,
    /// The requested filename is not present in the entry store.
    EntryNotFound,
    /// No backing archive bytes are loaded and the entry has no in-memory
    /// override.
    NoBackingFile,
    /// An entry's byte extent cannot be read from the backing bytes.
    ReadFailure,
    /// During a save, the original bytes for an unmodified entry cannot be
    /// located in the backing archive.
    SourceDataMissing,
}

} // verus!
