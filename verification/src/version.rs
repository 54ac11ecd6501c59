//! The three recognized archive format versions.
use vstd::prelude::*;

verus! {

/// Format version of an archive, detected from the header tag.
#[derive(Debug, Clone, Copy, PartialEq, Eq, Structural)]
pub enum RpaVersion {
    V2_0,
    V3_0,
    V3_2,
}

impl RpaVersion {
    /// Whether stored offsets and lengths are obfuscated with a derived key,
    /// true from version 3.0 on.
    pub open spec fn spec_is_keyed(self) -> bool {
        self != RpaVersion::V2_0
    }

    /// Version at least 3.0: the header carries key fragments.
    pub fn is_keyed(self) -> (r: bool)
        ensures
            r == self.spec_is_keyed(),
    {
        match self {
            RpaVersion::V2_0 => false,
            RpaVersion::V3_0 => true,
            RpaVersion::V3_2 => true,
        }
    }

    /// Token position of the first key fragment in the header line: the
    /// fragments start right after the offset for version 3.0, one token
    /// later for version 3.2.
    pub open spec fn spec_key_start(self) -> usize {
        if self == RpaVersion::V3_2 {
            3usize
        } else {
            2usize
        }
    }

    /// Index of the first key-fragment token in the header line.
    pub fn key_start(self) -> (r: usize)
        ensures
            r == self.spec_key_start(),
    {
        match self {
            RpaVersion::V3_2 => 3,
            RpaVersion::V3_0 => 2,
            RpaVersion::V2_0 => 2,
        }
    }
}

} // verus!
