//! One archive entry: a byte extent in the backing file plus an inline
//! prefix, or an in-memory override that replaces the on-disk bytes.
use vstd::prelude::*;

verus! {

/// An entry of the archive index.
///
/// When `data` is present it overrides the on-disk bytes entirely and
/// `offset`, `length` and `prefix` are meaningless for reads. When it is
/// absent, the entry's payload is `prefix` followed by the bytes read from
/// `offset` in the backing file, `length` bytes in all.
#[derive(Debug, Clone)]
pub struct RpaFileEntry {
    /// Byte position of the entry's extent in the backing archive file.
    pub offset: u64,
    /// Byte count of the entry's payload (prefix included).
    pub length: u64,
    /// Bytes stored inline in the index, prepended to the on-disk bytes.
    pub prefix: Vec<u8>,
    /// In-memory override of the payload, set by add and replace edits.
    pub data: Option<Vec<u8>>,
    /// Whether the entry was changed since the archive was loaded.
    pub modified: bool,
    /// Whether the entry is marked for deletion and will be dropped on save.
    pub to_delete: bool,
}

/// The mathematical value of an entry.
pub struct EntryV {
    pub offset: u64,
    pub length: u64,
    pub prefix: Seq<u8>,
    pub data: Option<Seq<u8>>,
    pub modified: bool,
    pub to_delete: bool,
}

impl View for RpaFileEntry {
    type V = EntryV;

    open spec fn view(&self) -> EntryV {
        EntryV {
            offset: self.offset,
            length: self.length,
            prefix: self.prefix@,
            data: match self.data {
                Some(d) => Some(d@),
                None => None,
            },
            modified: self.modified,
            to_delete: self.to_delete,
        }
    }
}

impl RpaFileEntry {
    /// A fresh on-disk entry with the given extent and prefix: not
    /// overridden, not modified, not deleted.
    pub fn on_disk(offset: u64, length: u64, prefix: Vec<u8>) -> (r: RpaFileEntry)
        ensures
            r@ == (EntryV {
                offset,
                length,
                prefix: prefix@,
                data: None,
                modified: false,
                to_delete: false,
            }),
    {
        RpaFileEntry { offset, length, prefix, data: None, modified: false, to_delete: false }
    }
}

} // verus!
