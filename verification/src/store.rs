//! The entry store: the in-memory mapping from archive-relative filename to
//! index entry, the single authority for the archive's current logical
//! contents. Keys are unique; insertion overwrites.
use vstd::prelude::*;

use crate::entry::{EntryV, RpaFileEntry};
use crate::strutil::str_eq;

verus! {

/// The mapping a sequence of (filename, entry) pairs builds up when each
/// pair is inserted in order, later pairs overwriting earlier ones.
pub open spec fn spec_store_of(s: Seq<(Seq<char>, EntryV)>) -> Map<Seq<char>, EntryV>
    decreases s.len(),
{
    if s.len() == 0 {
        Map::<Seq<char>, EntryV>::empty()
    } else {
        spec_store_of(s.drop_last()).insert(s.last().0, s.last().1)
    }
}

/// A key is in the built mapping exactly when some pair carries it, and its
/// value is the last such pair's.
pub proof fn lemma_store_of_contains(s: Seq<(Seq<char>, EntryV)>, k: Seq<char>)
    ensures
        spec_store_of(s).dom().contains(k) <==> exists|i: int|
            0 <= i < s.len() && (#[trigger] s[i]).0 == k,
    decreases s.len(),
{
    if s.len() > 0 {
        lemma_store_of_contains(s.drop_last(), k);
        if spec_store_of(s).dom().contains(k) {
            if s.last().0 == k {
                assert(s[s.len() - 1].0 == k);
            } else {
                let i = choose|i: int| 0 <= i < s.len() - 1 && (#[trigger] s.drop_last()[i]).0 == k;
                assert(s[i].0 == k);
            }
        }
        if exists|i: int| 0 <= i < s.len() && (#[trigger] s[i]).0 == k {
            let i = choose|i: int| 0 <= i < s.len() && (#[trigger] s[i]).0 == k;
            if i < s.len() - 1 {
                assert(s.drop_last()[i].0 == k);
            }
        }
    }
}

/// When the names of the pairs are unique, the built mapping reads back each
/// pair exactly.
pub proof fn lemma_store_of_unique(s: Seq<(Seq<char>, EntryV)>, i: int)
    requires
        forall|a: int, b: int|
            0 <= a < b < s.len() ==> (#[trigger] s[a]).0 != (#[trigger] s[b]).0,
        0 <= i < s.len(),
    ensures
        spec_store_of(s).dom().contains(s[i].0),
        spec_store_of(s)[s[i].0] == s[i].1,
    decreases s.len(),
{
    if i == s.len() - 1 {
    } else {
        assert(s.drop_last()[i] == s[i]);
        lemma_store_of_unique(s.drop_last(), i);
        assert(s.last().0 != s[i].0);
    }
}

/// The in-memory mapping from filename to entry.
pub struct EntryStore {
    entries: Vec<(String, RpaFileEntry)>,
}

impl View for EntryStore {
    type V = Seq<(Seq<char>, EntryV)>;

    closed spec fn view(&self) -> Seq<(Seq<char>, EntryV)> {
        self.entries@.map_values(|p: (String, RpaFileEntry)| (p.0@, p.1@))
    }
}

impl EntryStore {
    /// The mapping this store holds.
    pub open spec fn map_view(&self) -> Map<Seq<char>, EntryV> {
        spec_store_of(self@)
    }

    /// Well-formed: filenames are unique.
    pub open spec fn wf(&self) -> bool {
        forall|a: int, b: int|
            0 <= a < b < self@.len() ==> (#[trigger] self@[a]).0 != (#[trigger] self@[b]).0
    }

    /// The empty store.
    pub fn new() -> (r: EntryStore)
        ensures
            r@ == Seq::<(Seq<char>, EntryV)>::empty(),
            r.wf(),
    {
        let r = EntryStore { entries: Vec::new() };
        proof {
            assert(r@ =~= Seq::<(Seq<char>, EntryV)>::empty());
        }
        r
    }

    /// Number of entries.
    pub fn len(&self) -> (r: usize)
        ensures
            r == self@.len(),
    {
        self.entries.len()
    }

    /// The filename of the entry at a position.
    pub fn name_at(&self, i: usize) -> (r: &String)
        requires
            i < self@.len(),
        ensures
            r@ == self@[i as int].0,
    {
        &self.entries[i].0
    }

    /// The entry at a position.
    pub fn entry_at(&self, i: usize) -> (r: &RpaFileEntry)
        requires
            i < self@.len(),
        ensures
            r@ == self@[i as int].1,
    {
        &self.entries[i].1
    }

    /// The position holding a filename, if any.
    pub fn position_of(&self, name: &str) -> (r: Option<usize>)
        ensures
            match r {
                Some(i) => i < self@.len() && self@[i as int].0 == name@,
                None => forall|i: int| 0 <= i < self@.len() ==> (#[trigger] self@[i]).0 != name@,
            },
    {
        let n = self.entries.len();
        let mut i: usize = 0;
        while i < n
            invariant
                0 <= i <= n,
                n == self@.len(),
                forall|j: int| 0 <= j < i ==> (#[trigger] self@[j]).0 != name@,
            decreases n - i,
        {
            if str_eq(self.entries[i].0.as_str(), name) {
                return Some(i);
            }
            i = i + 1;
        }
        None
    }

    /// Whether the store holds a filename.
    pub fn contains(&self, name: &str) -> (r: bool)
        requires
            self.wf(),
        ensures
            r == self.map_view().dom().contains(name@),
    {
        proof {
            lemma_store_of_contains(self@, name@);
        }
        match self.position_of(name) {
            Some(_) => true,
            None => false,
        }
    }

    /// Read the entry stored under a filename.
    pub fn get(&self, name: &str) -> (r: Option<&RpaFileEntry>)
        requires
            self.wf(),
        ensures
            match r {
                Some(e) => self.map_view().dom().contains(name@) && e@ == self.map_view()[name@],
                None => !self.map_view().dom().contains(name@),
            },
    {
        proof {
            lemma_store_of_contains(self@, name@);
        }
        match self.position_of(name) {
            Some(i) => {
                proof {
                    lemma_store_of_unique(self@, i as int);
                }
                Some(&self.entries[i].1)
            },
            None => None,
        }
    }

    /// Insert an entry under a filename, overwriting any entry already
    /// stored under it.
    pub fn insert(&mut self, name: String, entry: RpaFileEntry)
        requires
            old(self).wf(),
        ensures
            final(self).wf(),
            final(self).map_view() == old(self).map_view().insert(name@, entry@),
            final(self).map_view().dom().contains(name@),
            final(self).map_view()[name@] == entry@,
            final(self)@.len() <= old(self)@.len() + 1,
    {
        proof {
            lemma_store_of_contains(self@, name@);
        }
        let ghost old_view = self@;
        match self.position_of(name.as_str()) {
            Some(i) => {
                proof {
                    lemma_store_of_unique(self@, i as int);
                }
                let j: usize = i;
                self.entries[j] = (name, entry);
                proof {
                    assert(self@ =~= old_view.update(j as int, (old_view[j as int].0, entry@)));
                    lemma_store_update(old_view, j as int, entry@);
                    assert(self.map_view() =~= old(self).map_view().insert(name@, entry@));
                    lemma_store_of_unique(self@, j as int);
                }
            },
            None => {
                self.entries.push((name, entry));
                proof {
                    assert(self@ =~= old_view.push((name@, entry@)));
                    assert(self@.drop_last() =~= old_view);
                }
            },
        }
    }

    /// The entries as a sequence of (filename, entry) pairs, for iteration.
    pub open spec fn spec_pairs(&self) -> Seq<(Seq<char>, EntryV)> {
        self@
    }

    /// Give the entry stored under a filename an in-memory override: its
    /// payload becomes the given bytes, its length their count, and it is
    /// marked modified. Returns whether the filename was present.
    pub fn replace_data(&mut self, name: &str, data: Vec<u8>) -> (r: bool)
        requires
            old(self).wf(),
        ensures
            final(self).wf(),
            r == old(self).map_view().dom().contains(name@),
            r ==> final(self).map_view() == old(self).map_view().insert(
                name@,
                (EntryV {
                    offset: old(self).map_view()[name@].offset,
                    length: data@.len() as u64,
                    prefix: old(self).map_view()[name@].prefix,
                    data: Some(data@),
                    modified: true,
                    to_delete: old(self).map_view()[name@].to_delete,
                }),
            ),
            !r ==> *final(self) == *old(self),
    {
        proof {
            lemma_store_of_contains(self@, name@);
        }
        let ghost old_view = self@;
        match self.position_of(name) {
            Some(i) => {
                proof {
                    lemma_store_of_unique(self@, i as int);
                }
                let j: usize = i;
                let old_offset = self.entries[j].1.offset;
                let old_prefix = vstd::slice::slice_to_vec(self.entries[j].1.prefix.as_slice());
                let old_to_delete = self.entries[j].1.to_delete;
                let name_kept = self.entries[j].0.clone();
                let length = data.len() as u64;
                let entry = RpaFileEntry {
                    offset: old_offset,
                    length,
                    prefix: old_prefix,
                    data: Some(data),
                    modified: true,
                    to_delete: old_to_delete,
                };
                self.entries[j] = (name_kept, entry);
                proof {
                    assert(self@ =~= old_view.update(j as int, (old_view[j as int].0, entry@)));
                    lemma_store_update(old_view, j as int, entry@);
                    assert(self.map_view() =~= old(self).map_view().insert(name@, entry@));
                    lemma_store_of_unique(self@, j as int);
                }
                true
            },
            None => {
                proof {
                    assert(*self == *old(self));
                }
                false
            },
        }
    }

    /// Mark the entry stored under a filename for deletion. Returns whether
    /// the filename was present.
    pub fn mark_deleted(&mut self, name: &str) -> (r: bool)
        requires
            old(self).wf(),
        ensures
            final(self).wf(),
            r == old(self).map_view().dom().contains(name@),
            r ==> final(self).map_view() == old(self).map_view().insert(
                name@,
                (EntryV {
                    offset: old(self).map_view()[name@].offset,
                    length: old(self).map_view()[name@].length,
                    prefix: old(self).map_view()[name@].prefix,
                    data: old(self).map_view()[name@].data,
                    modified: old(self).map_view()[name@].modified,
                    to_delete: true,
                }),
            ),
            !r ==> *final(self) == *old(self),
    {
        proof {
            lemma_store_of_contains(self@, name@);
        }
        let ghost old_view = self@;
        match self.position_of(name) {
            Some(i) => {
                proof {
                    lemma_store_of_unique(self@, i as int);
                }
                let j: usize = i;
                let old_offset = self.entries[j].1.offset;
                let old_length = self.entries[j].1.length;
                let old_prefix = vstd::slice::slice_to_vec(self.entries[j].1.prefix.as_slice());
                let old_modified = self.entries[j].1.modified;
                let old_data = match &self.entries[j].1.data {
                    Some(d) => Some(vstd::slice::slice_to_vec(d.as_slice())),
                    None => None,
                };
                let name_kept = self.entries[j].0.clone();
                let entry = RpaFileEntry {
                    offset: old_offset,
                    length: old_length,
                    prefix: old_prefix,
                    data: old_data,
                    modified: old_modified,
                    to_delete: true,
                };
                self.entries[j] = (name_kept, entry);
                proof {
                    assert(entry@ == (EntryV {
                        offset: old_view[j as int].1.offset,
                        length: old_view[j as int].1.length,
                        prefix: old_view[j as int].1.prefix,
                        data: old_view[j as int].1.data,
                        modified: old_view[j as int].1.modified,
                        to_delete: true,
                    }));
                    assert(self@ =~= old_view.update(j as int, (old_view[j as int].0, entry@)));
                    lemma_store_update(old_view, j as int, entry@);
                    assert(self.map_view() =~= old(self).map_view().insert(name@, entry@));
                }
                true
            },
            None => {
                proof {
                    assert(*self == *old(self));
                }
                false
            },
        }
    }
}

/// Updating position `i` of a unique-name pair sequence with a new entry
/// under the same name rebuilds the same mapping as inserting over the old
/// one.
proof fn lemma_store_update(s: Seq<(Seq<char>, EntryV)>, i: int, e: EntryV)
    requires
        forall|a: int, b: int|
            0 <= a < b < s.len() ==> (#[trigger] s[a]).0 != (#[trigger] s[b]).0,
        0 <= i < s.len(),
    ensures
        spec_store_of(s.update(i, (s[i].0, e))) =~= spec_store_of(s).insert(s[i].0, e),
    decreases s.len(),
{
    let t = s.update(i, (s[i].0, e));
    if i == s.len() - 1 {
        assert(t.drop_last() =~= s.drop_last());
    } else {
        assert(t.drop_last() =~= s.drop_last().update(i, (s[i].0, e)));
        assert(s.drop_last()[i] == s[i]);
        lemma_store_update(s.drop_last(), i, e);
        assert(s.last().0 != s[i].0);
        assert(spec_store_of(t) =~= spec_store_of(s.drop_last()).insert(s[i].0, e).insert(
            s.last().0,
            s.last().1,
        ));
    }
}

} // verus!
