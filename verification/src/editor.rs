//! The archive editing session: the detected version and derived key, the
//! entry store, the backing archive bytes, and the edit operations. The
//! host hands whole archive bytes in on load and takes whole output bytes
//! from save; every decision in between is verified.
use vstd::prelude::*;
use vstd::string::StringExecFns;

use crate::clock::now_millis;
use crate::entry::{EntryV, RpaFileEntry};
use crate::error::CodecError;
use crate::header::{spec_parse_header, parse_header, spec_tag_3_0, RpaHeader, DEFAULT_KEY};
use crate::heuristic::{parse_binary_dict, spec_scan};
use crate::hexnum::{format_hex, spec_hex_bytes};
use crate::index::{decode_index, pairs_view, spec_decode_index};
use crate::mask::{mask_value, spec_mask};
use crate::pickle::{
    pickle_decodes_to, pickle_encode_index, pickle_index_bytes_of, pickle_index_of, pickle_parse,
    recs_view,
    spec_recs_sorted,
};
use crate::store::{lemma_store_of_contains, lemma_store_of_unique, spec_store_of, EntryStore};
use crate::strutil::{
    lemma_sort_names_props, lemma_sorted_global, names_view, sort_names, spec_chars_lt,
    spec_names_sorted, spec_sort_names,
};
use crate::toast::Toast;
use crate::version::RpaVersion;
use crate::zlib::{deflate_of, inflate_of, zlib_compress, zlib_decompress};

verus! {

/// A payload captured before an add or replace overwrote its entry.
#[derive(Debug, Clone)]
pub struct BackupEntry {
    /// The overwritten entry's filename.
    pub filename: String,
    /// Its payload bytes as they were read before the overwrite.
    pub data: Vec<u8>,
    /// When the backup was taken, in milliseconds since the Unix epoch.
    pub timestamp: i64,
}

/// How many backups the bounded ring keeps.
pub const BACKUP_CAP: usize = 10;

/// An archive editing session.
pub struct RpaEditor {
    /// Format version of the loaded archive.
    pub version: RpaVersion,
    /// Derived obfuscation key of the loaded archive.
    pub key: u32,
    /// The entry store: filename to entry, unique filenames.
    pub indexes: EntryStore,
    /// The backing archive's bytes, present while an archive is loaded.
    pub archive_data: Option<Vec<u8>>,
    /// Whether any entry was edited since the load.
    pub modified: bool,
    /// Substring filter over filenames, case-insensitive.
    pub search_filter: String,
    /// Category filter over filenames (a category name, or every file).
    pub filter_type: String,
    /// Sort order of listed files: by name, size or category.
    pub sort_by: String,
    /// Whether the listing is ascending.
    pub sort_ascending: bool,
    /// Whether overwrites capture a backup first.
    pub auto_backup: bool,
    /// Compression level setting of the session.
    pub compression_level: u32,
    /// The bounded ring of captured backups, oldest first.
    pub backup_history: Vec<BackupEntry>,
    /// Notification banners raised by the session.
    pub toasts: Vec<Toast>,
}

/// The backing bytes as a mathematical value.
pub open spec fn backing_view(d: Option<Vec<u8>>) -> Option<Seq<u8>> {
    match d {
        Some(b) => Some(b@),
        None => None,
    }
}

/// What loading archive bytes yields: the version, the key, and the decoded
/// (filename, entry) pairs in decode order — from the structured index when
/// its root is a mapping, from the heuristic scan otherwise.
pub open spec fn spec_load(data: Seq<u8>) -> Result<
    (RpaVersion, u32, Seq<(Seq<char>, EntryV)>),
    CodecError,
> {
    match spec_parse_header(data) {
        Result::Err(e) => Result::Err(e),
        Result::Ok(h) => {
            let comp = if h.index_offset <= data.len() {
                data.subrange(h.index_offset as int, data.len() as int)
            } else {
                Seq::<u8>::empty()
            };
            match inflate_of(comp) {
                Option::None => Result::Err(CodecError::DecompressionError),
                Some(raw) => {
                    let pairs = match pickle_index_of(raw) {
                        Some(node) => match spec_decode_index(node, h.key) {
                            Result::Ok(p) => p,
                            Result::Err(_) => spec_scan(raw, h.key, 0),
                        },
                        Option::None => spec_scan(raw, h.key, 0),
                    };
                    Result::Ok(((h.version, h.key, pairs)))
                },
            }
        },
    }
}

/// What the structured index decode yields on the decompressed bytes: the
/// accepted entries when the bytes decode to a mapping, `MalformedIndex`
/// when they do not decode or the root is not a mapping.
pub open spec fn spec_parse_index(data: Seq<u8>, key: u32) -> Result<
    Seq<(Seq<char>, EntryV)>,
    CodecError,
> {
    match pickle_index_of(data) {
        Some(node) => spec_decode_index(node, key),
        Option::None => Result::Err(CodecError::MalformedIndex),
    }
}

/// Build a store from decoded pairs, inserted in decode order: a later pair
/// with the same filename overwrites an earlier one.
fn store_from_pairs(pairs: Vec<(String, RpaFileEntry)>) -> (r: EntryStore)
    ensures
        r.wf(),
        r.map_view() == spec_store_of(pairs_view(pairs@)),
{
    let ghost orig = pairs@;
    let mut rest = pairs;
    let mut store = EntryStore::new();
    proof {
        assert(pairs_view(orig.subrange(0, 0)) =~= Seq::<(Seq<char>, EntryV)>::empty());
        assert(store.map_view() =~= spec_store_of(pairs_view(orig.subrange(0, 0))));
        assert(rest@ =~= orig.subrange(0, orig.len() as int));
    }
    let ghost mut i: int = 0;
    while rest.len() > 0
        invariant
            0 <= i <= orig.len(),
            rest@ == orig.subrange(i, orig.len() as int),
            store.wf(),
            store.map_view() == spec_store_of(pairs_view(orig.subrange(0, i))),
        decreases rest@.len(),
    {
        let p = rest.remove(0);
        proof {
            assert(p == orig[i]);
            assert(rest@ =~= orig.subrange(i + 1, orig.len() as int));
            let pre = pairs_view(orig.subrange(0, i));
            let post = pairs_view(orig.subrange(0, i + 1));
            assert(orig.subrange(0, i + 1).drop_last() =~= orig.subrange(0, i));
            assert(post.drop_last() =~= pre);
            assert(post.last() == (p.0@, p.1@));
        }
        store.insert(p.0, p.1);
        proof {
            i = i + 1;
        }
    }
    proof {
        assert(orig.subrange(0, i) =~= orig);
    }
    store
}

/// The fixed size of the reserved header region at the start of a rebuilt
/// archive (the shortest conventional header).
pub const HEADER_RESERVE: usize = 0x34;

/// The filenames of a pair sequence, in order.
pub open spec fn names_of_pairs(pairs: Seq<(Seq<char>, EntryV)>) -> Seq<Seq<char>> {
    pairs.map_values(|p: (Seq<char>, EntryV)| p.0)
}

/// Every filename fits the index encoding's 32-bit length field (with a
/// four-byte character encoding at most): a machine limit of the format.
pub open spec fn spec_names_fit(names: Seq<Seq<char>>) -> bool {
    forall|i: int| 0 <= i < names.len() ==> (#[trigger] names[i]).len() < 0x40000000
}

/// `n` zero bytes.
pub open spec fn spec_zeros(n: int) -> Seq<u8> {
    Seq::new(n as nat, |i: int| 0u8)
}

/// The payload a save writes for an entry: its override when present,
/// otherwise the `length` bytes at `offset` sliced out of the original
/// file's bytes — or nothing when that slice is out of bounds.
pub open spec fn spec_payload_of(e: EntryV, backing: Seq<u8>) -> Option<Seq<u8>> {
    match e.data {
        Some(d) => Some(d),
        Option::None => if e.offset + e.length <= backing.len() {
            Some(backing.subrange(e.offset as int, e.offset + e.length))
        } else {
            Option::None
        },
    }
}

/// The stored (offset, length) words of a fresh index record: obfuscated
/// with the key for a 3.0-style save, recorded plainly otherwise.
pub open spec fn spec_stored_words(version: RpaVersion, key: u32, offset: u64, length: u64) -> (
    u64,
    u64,
) {
    if version == RpaVersion::V3_0 {
        (spec_mask(offset, key), spec_mask(length, key))
    } else {
        (offset, length)
    }
}

/// What the payload-writing pass yields, processing `names` in order from
/// write position `cursor`: the concatenated payload bytes and the fresh
/// index records (empty prefixes), deletion-marked entries dropped, or
/// `SourceDataMissing` when an unmodified entry's bytes cannot be sliced
/// out of the original.
pub open spec fn spec_save_body(
    names: Seq<Seq<char>>,
    m: Map<Seq<char>, EntryV>,
    backing: Seq<u8>,
    version: RpaVersion,
    key: u32,
    cursor: int,
) -> Result<(Seq<u8>, Seq<(Seq<char>, u64, u64, Seq<u8>)>), CodecError>
    decreases names.len(),
{
    if names.len() == 0 {
        Result::Ok(((Seq::<u8>::empty(), Seq::<(Seq<char>, u64, u64, Seq<u8>)>::empty())))
    } else {
        let name = names[0];
        let rest = names.drop_first();
        if !m.dom().contains(name) || m[name].to_delete {
            spec_save_body(rest, m, backing, version, key, cursor)
        } else {
            match spec_payload_of(m[name], backing) {
                Option::None => Result::Err(CodecError::SourceDataMissing),
                Some(p) => match spec_save_body(rest, m, backing, version, key, cursor + p.len()) {
                    Result::Err(e) => Result::Err(e),
                    Result::Ok(t) => {
                        let w = spec_stored_words(version, key, cursor as u64, p.len() as u64);
                        Result::Ok(
                            ((p + t.0, seq![(name, w.0, w.1, Seq::<u8>::empty())] + t.1)),
                        )
                    },
                },
            }
        }
    }
}

/// Unmask a fresh record's stored words back to its (offset, length).
pub open spec fn spec_unstored_words(version: RpaVersion, key: u32, w: (u64, u64)) -> (u64, u64) {
    if version == RpaVersion::V3_0 {
        (spec_mask(w.0, key), spec_mask(w.1, key))
    } else {
        (w.0, w.1)
    }
}

/// One record points at one payload extent of the written body.
pub open spec fn spec_rec_placed(
    rec: (Seq<char>, u64, u64, Seq<u8>),
    m: Map<Seq<char>, EntryV>,
    backing: Seq<u8>,
    version: RpaVersion,
    key: u32,
    cursor: int,
    body: Seq<u8>,
) -> bool {
    let w = spec_unstored_words(version, key, (rec.1, rec.2));
    &&& m.dom().contains(rec.0)
    &&& !m[rec.0].to_delete
    &&& spec_payload_of(m[rec.0], backing) is Some
    &&& cursor <= w.0
    &&& w.0 + w.1 <= cursor + body.len()
    &&& w.1 == spec_payload_of(m[rec.0], backing).unwrap().len()
    &&& body.subrange(w.0 - cursor, w.0 - cursor + w.1) == spec_payload_of(
        m[rec.0],
        backing,
    ).unwrap()
    &&& rec.3 == Seq::<u8>::empty()
}

/// Where each payload the save wrote lies: unmasking record `i`'s stored
/// words yields a byte extent of the written body holding exactly the
/// payload of the surviving entry it names.
pub proof fn lemma_save_body_placement(
    names: Seq<Seq<char>>,
    m: Map<Seq<char>, EntryV>,
    backing: Seq<u8>,
    version: RpaVersion,
    key: u32,
    cursor: int,
)
    requires
        spec_save_body(names, m, backing, version, key, cursor) is Ok,
        0 <= cursor,
        cursor + spec_save_body(names, m, backing, version, key, cursor)->Ok_0.0.len()
            <= u64::MAX,
    ensures
        ({
            let body = spec_save_body(names, m, backing, version, key, cursor)->Ok_0.0;
            let recs = spec_save_body(names, m, backing, version, key, cursor)->Ok_0.1;
            forall|i: int|
                0 <= i < recs.len() ==> spec_rec_placed(
                    #[trigger] recs[i],
                    m,
                    backing,
                    version,
                    key,
                    cursor,
                    body,
                ) && names.contains(recs[i].0)
        }),
    decreases names.len(),
{
    if names.len() == 0 {
    } else {
        let name = names[0];
        let rest = names.drop_first();
        let body = spec_save_body(names, m, backing, version, key, cursor)->Ok_0.0;
        let recs = spec_save_body(names, m, backing, version, key, cursor)->Ok_0.1;
        if !m.dom().contains(name) || m[name].to_delete {
            lemma_save_body_placement(rest, m, backing, version, key, cursor);
            assert forall|i: int|
                0 <= i < recs.len() implies spec_rec_placed(
                #[trigger] recs[i],
                m,
                backing,
                version,
                key,
                cursor,
                body,
            ) && names.contains(recs[i].0) by {
                let rrecs = spec_save_body(rest, m, backing, version, key, cursor)->Ok_0.1;
                assert(recs[i] == rrecs[i]);
                assert(rest.contains(rrecs[i].0));
                let j = choose|j: int| 0 <= j < rest.len() && rest[j] == rrecs[i].0;
                assert(names[j + 1] == rest[j]);
            }
        } else {
            let p = spec_payload_of(m[name], backing).unwrap();
            let c1 = cursor + p.len();
            let rbody = spec_save_body(rest, m, backing, version, key, c1)->Ok_0.0;
            let rrecs = spec_save_body(rest, m, backing, version, key, c1)->Ok_0.1;
            let w = spec_stored_words(version, key, cursor as u64, p.len() as u64);
            assert(body == p + rbody);
            assert(recs == seq![(name, w.0, w.1, Seq::<u8>::empty())] + rrecs);
            lemma_save_body_placement(rest, m, backing, version, key, c1);
            assert forall|i: int|
                0 <= i < recs.len() implies spec_rec_placed(
                #[trigger] recs[i],
                m,
                backing,
                version,
                key,
                cursor,
                body,
            ) && names.contains(recs[i].0) by {
                if i == 0 {
                    if version == RpaVersion::V3_0 {
                        crate::mask::lemma_mask_involution(cursor as u64, key);
                        crate::mask::lemma_mask_involution(p.len() as u64, key);
                    }
                    let u = spec_unstored_words(version, key, (recs[0].1, recs[0].2));
                    assert(u.0 == cursor as u64 && u.1 == p.len() as u64);
                    assert(body.subrange(0, p.len() as int) =~= p);
                    assert(names[0] == name);
                } else {
                    assert(recs[i] == rrecs[i - 1]);
                    assert(spec_rec_placed(rrecs[i - 1], m, backing, version, key, c1, rbody));
                    let u = spec_unstored_words(version, key, (recs[i].1, recs[i].2));
                    assert(body.subrange(u.0 - cursor, u.0 - cursor + u.1) =~= rbody.subrange(
                        u.0 - c1,
                        u.0 - c1 + u.1,
                    ));
                    assert(rest.contains(rrecs[i - 1].0));
                    let j = choose|j: int| 0 <= j < rest.len() && rest[j] == rrecs[i - 1].0;
                    assert(names[j + 1] == rest[j]);
                }
            }
        }
    }
}

/// Which names the fresh index holds: exactly the surviving names of the
/// processed list. In particular, a deletion-marked entry's filename is in
/// no record of the rebuilt index.
pub proof fn lemma_save_body_names(
    names: Seq<Seq<char>>,
    m: Map<Seq<char>, EntryV>,
    backing: Seq<u8>,
    version: RpaVersion,
    key: u32,
    cursor: int,
    n: Seq<char>,
)
    requires
        spec_save_body(names, m, backing, version, key, cursor) is Ok,
    ensures
        ({
            let recs = spec_save_body(names, m, backing, version, key, cursor)->Ok_0.1;
            (exists|i: int| 0 <= i < recs.len() && (#[trigger] recs[i]).0 == n) <==> (
            names.contains(n) && m.dom().contains(n) && !m[n].to_delete)
        }),
    decreases names.len(),
{
    let recs = spec_save_body(names, m, backing, version, key, cursor)->Ok_0.1;
    if names.len() == 0 {
        assert(!names.contains(n));
    } else {
        let name = names[0];
        let rest = names.drop_first();
        if !m.dom().contains(name) || m[name].to_delete {
            lemma_save_body_names(rest, m, backing, version, key, cursor, n);
            let rrecs = spec_save_body(rest, m, backing, version, key, cursor)->Ok_0.1;
            assert(recs == rrecs);
            if names.contains(n) && m.dom().contains(n) && !m[n].to_delete {
                let j = choose|j: int| 0 <= j < names.len() && names[j] == n;
                assert(j != 0);
                assert(rest[j - 1] == n);
                assert(rest.contains(n));
            }
            if exists|i: int| 0 <= i < recs.len() && (#[trigger] recs[i]).0 == n {
                let j = choose|j: int| 0 <= j < rest.len() && rest[j] == n;
                assert(names[j + 1] == n);
                assert(names.contains(n));
            }
        } else {
            let p = spec_payload_of(m[name], backing).unwrap();
            let c1 = cursor + p.len();
            let rrecs = spec_save_body(rest, m, backing, version, key, c1)->Ok_0.1;
            let w = spec_stored_words(version, key, cursor as u64, p.len() as u64);
            assert(recs == seq![(name, w.0, w.1, Seq::<u8>::empty())] + rrecs);
            lemma_save_body_names(rest, m, backing, version, key, c1, n);
            if n == name {
                assert(recs[0].0 == n);
                assert(names[0] == n);
                assert(names.contains(n));
            } else {
                if names.contains(n) && m.dom().contains(n) && !m[n].to_delete {
                    let j = choose|j: int| 0 <= j < names.len() && names[j] == n;
                    assert(j != 0);
                    assert(rest[j - 1] == n);
                    assert(rest.contains(n));
                    let i = choose|i: int|
                        0 <= i < rrecs.len() && (#[trigger] rrecs[i]).0 == n;
                    assert(recs[i + 1].0 == n);
                }
                if exists|i: int| 0 <= i < recs.len() && (#[trigger] recs[i]).0 == n {
                    let i = choose|i: int| 0 <= i < recs.len() && (#[trigger] recs[i]).0 == n;
                    assert(i != 0);
                    assert(rrecs[i - 1].0 == n);
                    let j = choose|j: int| 0 <= j < rest.len() && rest[j] == n;
                    assert(names[j + 1] == n);
                    assert(names.contains(n));
                }
            }
        }
    }
}

/// One write step of the payload pass: processing the head name with its
/// payload prepends the payload and its record to what the rest yields.
proof fn lemma_save_body_step(
    names: Seq<Seq<char>>,
    m: Map<Seq<char>, EntryV>,
    backing: Seq<u8>,
    version: RpaVersion,
    key: u32,
    cursor: int,
)
    requires
        names.len() > 0,
        m.dom().contains(names[0]),
        !m[names[0]].to_delete,
        spec_payload_of(m[names[0]], backing) is Some,
    ensures
        ({
            let p = spec_payload_of(m[names[0]], backing).unwrap();
            let w = spec_stored_words(version, key, cursor as u64, p.len() as u64);
            match spec_save_body(names.drop_first(), m, backing, version, key, cursor + p.len()) {
                Result::Ok(t) => spec_save_body(names, m, backing, version, key, cursor)
                    == Result::<(Seq<u8>, Seq<(Seq<char>, u64, u64, Seq<u8>)>), CodecError>::Ok(
                    ((p + t.0, seq![(names[0], w.0, w.1, Seq::<u8>::empty())] + t.1)),
                ),
                Result::Err(e) => spec_save_body(names, m, backing, version, key, cursor)
                    == Result::<(Seq<u8>, Seq<(Seq<char>, u64, u64, Seq<u8>)>), CodecError>::Err(
                    e,
                ),
            }
        }),
{
}

/// A name drawn from a permutation of the store's names is in the store's
/// mapping.
proof fn lemma_sorted_name_in_store(
    store_view: Seq<(Seq<char>, EntryV)>,
    sorted_v: Seq<Seq<char>>,
    k: int,
)
    requires
        sorted_v.to_multiset() == names_of_pairs(store_view).to_multiset(),
        0 <= k < sorted_v.len(),
    ensures
        spec_store_of(store_view).dom().contains(sorted_v[k]),
{
    broadcast use vstd::seq_lib::group_to_multiset_ensures;

    assert(sorted_v.to_multiset().count(sorted_v[k]) > 0);
    assert(names_of_pairs(store_view).to_multiset().count(sorted_v[k]) > 0);
    assert(names_of_pairs(store_view).contains(sorted_v[k]));
    let j = choose|j: int|
        0 <= j < names_of_pairs(store_view).len() && names_of_pairs(store_view)[j] == sorted_v[k];
    assert(store_view[j].0 == sorted_v[k]);
    lemma_store_of_contains(store_view, sorted_v[k]);
}

/// Appending a record named by a later position of a sorted name list keeps
/// the record list strictly sorted.
proof fn lemma_recs_sorted_push(
    recsv: Seq<(Seq<char>, u64, u64, Seq<u8>)>,
    rec: (Seq<char>, u64, u64, Seq<u8>),
    sorted_v: Seq<Seq<char>>,
    k: int,
)
    requires
        spec_recs_sorted(recsv),
        spec_names_sorted(sorted_v),
        0 <= k < sorted_v.len(),
        rec.0 == sorted_v[k],
        recsv.len() > 0 ==> exists|j: int| 0 <= j < k && (#[trigger] recsv.last().0) == sorted_v[j],
    ensures
        spec_recs_sorted(recsv + seq![rec]),
{
    let r2 = recsv + seq![rec];
    if recsv.len() > 0 {
        let j = choose|j: int| 0 <= j < k && (#[trigger] recsv.last().0) == sorted_v[j];
        lemma_sorted_global(sorted_v, j, k);
        assert(spec_chars_lt(recsv.last().0, sorted_v[k]));
    }
    assert forall|a: int| 0 <= a < r2.len() - 1 implies spec_chars_lt(
        (#[trigger] r2[a]).0,
        r2[a + 1].0,
    ) by {
        if a < recsv.len() - 1 {
            assert(r2[a] == recsv[a]);
            assert(r2[a + 1] == recsv[a + 1]);
        } else {
            assert(r2[a] == recsv.last());
            assert(r2[a + 1] == rec);
        }
    }
}

/// A 3.0-style save's output reloads to the same logical contents: parsing
/// it yields version 3.0 and the same key, and a store holding exactly the
/// surviving filenames, each of whose payloads reads back as exactly the
/// payload the save wrote for it.
pub open spec fn spec_reload_matches(
    pairs: Seq<(Seq<char>, EntryV)>,
    backing: Seq<u8>,
    key: u32,
    out: Seq<u8>,
) -> bool {
    let m = spec_store_of(pairs);
    match spec_load(out) {
        Result::Ok(t) => {
            let m2 = spec_store_of(t.2);
            &&& t.0 == RpaVersion::V3_0
            &&& t.1 == key
            &&& forall|n: Seq<char>|
                #![trigger m2.dom().contains(n)]
                #![trigger m.dom().contains(n)]
                m2.dom().contains(n) <==> (m.dom().contains(n) && !m[n].to_delete)
            &&& forall|n: Seq<char>|
                #[trigger] m2.dom().contains(n) ==> RpaEditor::spec_read(m2, Some(out), n)
                    == Result::<Seq<u8>, CodecError>::Ok(
                    spec_payload_of(m[n], backing).unwrap(),
                )
        },
        Result::Err(_) => false,
    }
}

/// Reloading what a 3.0-style save produced: the written header parses back,
/// the compressed index decompresses and decodes back to the fresh records,
/// and each record's extent of the output holds the payload that was
/// written for its entry.
#[verifier::rlimit(100)]
proof fn lemma_reload_after_save(
    pairs: Seq<(Seq<char>, EntryV)>,
    bk: Seq<u8>,
    key: u32,
    sorted_v: Seq<Seq<char>>,
    body: Seq<u8>,
    recsv: Seq<(Seq<char>, u64, u64, Seq<u8>)>,
    ib: Seq<u8>,
    comp: Seq<u8>,
    out: Seq<u8>,
    index_offset: u64,
)
    requires
        sorted_v == spec_sort_names(names_of_pairs(pairs)),
        sorted_v.to_multiset() == names_of_pairs(pairs).to_multiset(),
        spec_save_body(sorted_v, spec_store_of(pairs), bk, RpaVersion::V3_0, key, HEADER_RESERVE as int)
            == Result::<(Seq<u8>, Seq<(Seq<char>, u64, u64, Seq<u8>)>), CodecError>::Ok(
            ((body, recsv)),
        ),
        spec_recs_sorted(recsv),
        ib == pickle_index_bytes_of(recsv),
        pickle_decodes_to(ib, recsv),
        comp == deflate_of(ib),
        inflate_of(comp) == Some(ib),
        index_offset == HEADER_RESERVE + body.len(),
        out == spec_header_line(RpaVersion::V3_0, index_offset, key) + spec_zeros(
            HEADER_RESERVE - spec_header_line(RpaVersion::V3_0, index_offset, key).len(),
        ) + body + comp,
    ensures
        spec_reload_matches(pairs, bk, key, out),
{
    let m = spec_store_of(pairs);
    let hex_off = spec_hex_bytes(index_offset as nat, 16);
    let hex_key = spec_hex_bytes(key as nat, 8);
    crate::hexnum::lemma_hex_bytes_wf(index_offset as nat, 16);
    crate::hexnum::lemma_hex_bytes_wf(key as nat, 8);
    let line = spec_header_line(RpaVersion::V3_0, index_offset, key);
    assert(line == spec_tag_3_0() + hex_off + seq![32u8] + hex_key + seq![10u8]);
    assert(line.len() == 34);
    let tail = spec_zeros((HEADER_RESERVE - 34) as int) + body + comp;
    assert(out =~= spec_tag_3_0() + hex_off + seq![32u8] + hex_key + seq![10u8] + tail);
    crate::header::lemma_header_reparse_3_0(index_offset, key, tail);
    assert(spec_parse_header(out) == Result::<RpaHeader, CodecError>::Ok(
        (RpaHeader { version: RpaVersion::V3_0, index_offset, key }),
    ));
    assert(out.len() == HEADER_RESERVE + body.len() + comp.len());
    assert(index_offset <= out.len());
    assert(out.subrange(index_offset as int, out.len() as int) =~= comp);

    // The compressed block decompresses to the index bytes, which decode
    // back to the fresh records.
    assert(inflate_of(out.subrange(index_offset as int, out.len() as int)) == Some(ib));
    let node = pickle_index_of(ib).unwrap();
    assert(crate::pickle::node_is_index_dict_of(node, recsv));
    let node_pairs = node->Dict_0@;
    assert(node_pairs.len() == recsv.len());
    crate::index::lemma_decode_matched_pairs(node_pairs, recsv, key);
    let decoded = recsv.map_values(
        |r: (Seq<char>, u64, u64, Seq<u8>)| crate::index::spec_rec_entry(r, key),
    );
    assert(spec_decode_index(node, key) == Result::<Seq<(Seq<char>, EntryV)>, CodecError>::Ok(
        decoded,
    ));
    assert(spec_load(out) == Result::<
        (RpaVersion, u32, Seq<(Seq<char>, EntryV)>),
        CodecError,
    >::Ok(((RpaVersion::V3_0, key, decoded))));

    // The reloaded store reads back each decoded entry: the record names
    // are strictly sorted, hence unique.
    assert forall|a: int, b: int|
        0 <= a < b < decoded.len() implies (#[trigger] decoded[a]).0 != (#[trigger] decoded[b]).0 by {
        lemma_recs_names_sorted_distinct(recsv, a, b);
        assert(decoded[a].0 == recsv[a].0);
        assert(decoded[b].0 == recsv[b].0);
    }
    let m2 = spec_store_of(decoded);
    lemma_save_body_placement(sorted_v, m, bk, RpaVersion::V3_0, key, HEADER_RESERVE as int);
    assert forall|i: int| 0 <= i < recsv.len() implies spec_rec_placed(
        #[trigger] recsv[i],
        m,
        bk,
        RpaVersion::V3_0,
        key,
        HEADER_RESERVE as int,
        body,
    ) by {
        let srecs = spec_save_body(
            sorted_v,
            m,
            bk,
            RpaVersion::V3_0,
            key,
            HEADER_RESERVE as int,
        )->Ok_0.1;
        let sbody = spec_save_body(
            sorted_v,
            m,
            bk,
            RpaVersion::V3_0,
            key,
            HEADER_RESERVE as int,
        )->Ok_0.0;
        assert(srecs == recsv && sbody == body);
        assert(spec_rec_placed(srecs[i], m, bk, RpaVersion::V3_0, key, HEADER_RESERVE as int, sbody));
    }

    assert forall|n: Seq<char>| #[trigger] m2.dom().contains(n) implies (m.dom().contains(n)
        && !m[n].to_delete) by {
        lemma_store_of_contains(decoded, n);
        let i = choose|i: int| 0 <= i < decoded.len() && (#[trigger] decoded[i]).0 == n;
        assert(recsv[i].0 == n);
        assert(spec_rec_placed(
            recsv[i],
            m,
            bk,
            RpaVersion::V3_0,
            key,
            HEADER_RESERVE as int,
            body,
        ));
    }
    assert forall|n: Seq<char>| m.dom().contains(n) && !(#[trigger] m[n].to_delete) implies
        m2.dom().contains(n) by {
        lemma_store_of_contains(pairs, n);
        let j = choose|j: int| 0 <= j < pairs.len() && (#[trigger] pairs[j]).0 == n;
        assert(names_of_pairs(pairs)[j] == n);
        assert(names_of_pairs(pairs).contains(n));
        broadcast use vstd::seq_lib::group_to_multiset_ensures;

        assert(names_of_pairs(pairs).to_multiset().count(n) > 0);
        assert(sorted_v.to_multiset().count(n) > 0);
        assert(sorted_v.contains(n));
        lemma_save_body_names(
            sorted_v,
            m,
            bk,
            RpaVersion::V3_0,
            key,
            HEADER_RESERVE as int,
            n,
        );
        let i = choose|i: int| 0 <= i < recsv.len() && (#[trigger] recsv[i]).0 == n;
        assert(decoded[i].0 == n);
        lemma_store_of_contains(decoded, n);
    }
    assert forall|n: Seq<char>| #[trigger] m2.dom().contains(n) implies RpaEditor::spec_read(
        m2,
        Some(out),
        n,
    ) == Result::<Seq<u8>, CodecError>::Ok(spec_payload_of(m[n], bk).unwrap()) by {
        lemma_store_of_contains(decoded, n);
        let i = choose|i: int| 0 <= i < decoded.len() && (#[trigger] decoded[i]).0 == n;
        lemma_store_of_unique(decoded, i);
        assert(m2[n] == decoded[i].1);
        assert(recsv[i].0 == n);
        assert(spec_rec_placed(
            recsv[i],
            m,
            bk,
            RpaVersion::V3_0,
            key,
            HEADER_RESERVE as int,
            body,
        ));
        let w = spec_unstored_words(RpaVersion::V3_0, key, (recsv[i].1, recsv[i].2));
        assert(m2[n].offset == w.0 && m2[n].length == w.1);
        assert(m2[n].prefix.len() == 0);
        assert(m2[n].data is None);
        assert(w.0 + w.1 <= out.len());
        assert(out.subrange(w.0 as int, w.0 + w.1) =~= body.subrange(
            w.0 - HEADER_RESERVE,
            w.0 - HEADER_RESERVE + w.1,
        ));
        assert(m2[n].prefix + out.subrange(w.0 as int, w.0 + w.1) =~= spec_payload_of(
            m[n],
            bk,
        ).unwrap());
    }
}

/// Strictly sorted records carry pairwise distinct names.
proof fn lemma_recs_names_sorted_distinct(
    recsv: Seq<(Seq<char>, u64, u64, Seq<u8>)>,
    a: int,
    b: int,
)
    requires
        spec_recs_sorted(recsv),
        0 <= a < b < recsv.len(),
    ensures
        recsv[a].0 != recsv[b].0,
{
    let rn = recsv.map_values(|r: (Seq<char>, u64, u64, Seq<u8>)| r.0);
    assert(spec_names_sorted(rn)) by {
        assert forall|i: int| 0 <= i < rn.len() - 1 implies spec_chars_lt(
            #[trigger] rn[i],
            rn[i + 1],
        ) by {
            assert(rn[i] == recsv[i].0);
            assert(rn[i + 1] == recsv[i + 1].0);
        }
    }
    lemma_sorted_global(rn, a, b);
    crate::strutil::lemma_chars_lt_irreflexive(rn[a]);
    assert(rn[a] == recsv[a].0 && rn[b] == recsv[b].0);
}

/// Replacing an entry's payload then reading it back (without saving)
/// returns exactly the replacement bytes, never the original on-disk bytes:
/// the override takes precedence over any extent.
pub proof fn lemma_replace_then_read(
    m: Map<Seq<char>, EntryV>,
    backing: Option<Seq<u8>>,
    name: Seq<char>,
    data: Seq<u8>,
    length: u64,
)
    requires
        m.dom().contains(name),
    ensures
        RpaEditor::spec_read(
            m.insert(
                name,
                (EntryV {
                    offset: m[name].offset,
                    length,
                    prefix: m[name].prefix,
                    data: Some(data),
                    modified: true,
                    to_delete: m[name].to_delete,
                }),
            ),
            backing,
            name,
        ) == Result::<Seq<u8>, CodecError>::Ok(data),
{
}

/// Deleting an entry then saving 3.0-style produces an archive whose
/// reloaded index does not contain that filename.
pub proof fn lemma_deleted_gone_after_save(
    pairs: Seq<(Seq<char>, EntryV)>,
    backing: Seq<u8>,
    key: u32,
    out: Seq<u8>,
    n: Seq<char>,
)
    requires
        spec_reload_matches(pairs, backing, key, out),
        spec_store_of(pairs).dom().contains(n),
        spec_store_of(pairs)[n].to_delete,
    ensures
        spec_load(out) matches Ok(t) && !spec_store_of(t.2).dom().contains(n),
{
}

/// Round trip of an entry's bytes: after a 3.0-style save, reloading the
/// output and reading a surviving filename yields the same payload bytes as
/// reading it before the save — for every surviving entry that carries an
/// override or an empty prefix. (An entry with a non-empty prefix is
/// re-emitted as the raw extent its index describes, so its logical payload
/// is not preserved by the save algorithm.)
pub proof fn lemma_roundtrip_read(
    pairs: Seq<(Seq<char>, EntryV)>,
    backing: Seq<u8>,
    key: u32,
    out: Seq<u8>,
    n: Seq<char>,
)
    requires
        spec_reload_matches(pairs, backing, key, out),
        spec_store_of(pairs).dom().contains(n),
        !spec_store_of(pairs)[n].to_delete,
        spec_store_of(pairs)[n].data is Some || spec_store_of(pairs)[n].prefix.len() == 0,
        RpaEditor::spec_read(spec_store_of(pairs), Some(backing), n) is Ok,
    ensures
        spec_load(out) matches Ok(t) && RpaEditor::spec_read(spec_store_of(t.2), Some(out), n)
            == RpaEditor::spec_read(spec_store_of(pairs), Some(backing), n),
{
    let m = spec_store_of(pairs);
    let e = m[n];
    match e.data {
        Some(_) => {
        },
        Option::None => {
            assert(e.prefix.len() == 0);
            assert(e.offset + (e.length - e.prefix.len()) <= backing.len());
            assert(spec_payload_of(e, backing) is Some);
            assert(e.prefix + backing.subrange(
                e.offset as int,
                e.offset + (e.length - e.prefix.len()),
            ) =~= backing.subrange(e.offset as int, e.offset + e.length));
        },
    }
}

/// The header line of a rebuilt archive: a 3.0-style header with the index
/// offset and the key for a 3.0 save, a 2.0-style header with the offset
/// alone otherwise.
pub open spec fn spec_header_line(version: RpaVersion, index_offset: u64, key: u32) -> Seq<u8> {
    if version == RpaVersion::V3_0 {
        spec_tag_3_0() + spec_hex_bytes(index_offset as nat, 16) + seq![32u8] + spec_hex_bytes(
            key as nat,
            8,
        ) + seq![10u8]
    } else {
        seq![82u8, 80u8, 65u8, 45u8, 50u8, 46u8, 48u8, 32u8] + spec_hex_bytes(
            index_offset as nat,
            16,
        ) + seq![10u8]
    }
}

/// What a save yields from a session's store and backing bytes: the header
/// line over the reserved region, the surviving payloads in sorted filename
/// order, and the compressed fresh index.
pub open spec fn spec_save_output(
    version: RpaVersion,
    key: u32,
    pairs: Seq<(Seq<char>, EntryV)>,
    backing: Seq<u8>,
) -> Result<Seq<u8>, CodecError> {
    let names = spec_sort_names(names_of_pairs(pairs));
    let m = spec_store_of(pairs);
    match spec_save_body(names, m, backing, version, key, HEADER_RESERVE as int) {
        Result::Err(e) => Result::Err(e),
        Result::Ok(t) => {
            let index_offset = HEADER_RESERVE + t.0.len();
            let comp = deflate_of(pickle_index_bytes_of(t.1));
            let header = spec_header_line(version, index_offset as u64, key);
            Result::Ok(header + spec_zeros(HEADER_RESERVE - header.len()) + t.0 + comp)
        },
    }
}

/// Emit the header line of a rebuilt archive.
fn build_header_line(version: RpaVersion, index_offset: u64, key: u32) -> (r: Vec<u8>)
    ensures
        r@ == spec_header_line(version, index_offset, key),
        r@.len() <= HEADER_RESERVE,
{
    let keyed: bool = match version {
        RpaVersion::V3_0 => true,
        _ => false,
    };
    let mut header: Vec<u8> = Vec::new();
    header.push(82);
    header.push(80);
    header.push(65);
    header.push(45);
    if keyed {
        header.push(51);
    } else {
        header.push(50);
    }
    header.push(46);
    header.push(48);
    header.push(32);
    let mut off_hex = format_hex(index_offset, 16);
    header.append(&mut off_hex);
    if keyed {
        header.push(32);
        let mut key_hex = format_hex(key as u64, 8);
        header.append(&mut key_hex);
    }
    header.push(10);
    proof {
        assert(header@ =~= spec_header_line(version, index_offset, key));
    }
    header
}

impl Default for RpaEditor {
    /// A fresh session: no archive, the fixed default key, empty store,
    /// default listing and backup settings.
    fn default() -> (r: Self)
        ensures
            r.wf(),
            r.version == RpaVersion::V3_2,
            r.key == DEFAULT_KEY,
            r.indexes@.len() == 0,
            r.archive_data is None,
            !r.modified,
            r.search_filter@ == Seq::<char>::empty(),
            r.filter_type@ == "all"@,
            r.sort_by@ == "name"@,
            r.sort_ascending,
            r.auto_backup,
            r.compression_level == 6,
            r.backup_history@ == Seq::<BackupEntry>::empty(),
            r.toasts@ == Seq::<Toast>::empty(),
    {
        let r = RpaEditor {
            version: RpaVersion::V3_2,
            key: DEFAULT_KEY,
            indexes: EntryStore::new(),
            archive_data: None,
            modified: false,
            search_filter: String::new(),
            filter_type: String::from_str("all"),
            sort_by: String::from_str("name"),
            sort_ascending: true,
            auto_backup: true,
            compression_level: 6,
            backup_history: Vec::new(),
            toasts: Vec::new(),
        };
        proof {
            assert(r.backup_history@ =~= Seq::<BackupEntry>::empty());
            assert(r.toasts@ =~= Seq::<Toast>::empty());
        }
        r
    }
}

impl RpaEditor {
    /// Well-formed session: the store's filenames are unique and the backup
    /// ring holds at most its cap.
    pub open spec fn wf(&self) -> bool {
        self.indexes.wf() && self.backup_history@.len() <= BACKUP_CAP
    }

    /// A fresh session.
    pub fn new() -> (r: Self)
        ensures
            r.wf(),
            r.version == RpaVersion::V3_2,
            r.key == DEFAULT_KEY,
            r.indexes@.len() == 0,
            r.archive_data is None,
            !r.modified,
    {
        Self::default()
    }

    /// Close the archive: reset every session field to its fresh state.
    /// Raised banners stay up.
    pub fn unload_rpa(&mut self) -> (r: Result<(), CodecError>)
        ensures
            r is Ok,
            final(self).wf(),
            final(self).version == RpaVersion::V3_2,
            final(self).key == DEFAULT_KEY,
            final(self).indexes@.len() == 0,
            final(self).archive_data is None,
            !final(self).modified,
            final(self).search_filter@ == Seq::<char>::empty(),
            final(self).filter_type@ == "all"@,
            final(self).sort_by@ == "name"@,
            final(self).sort_ascending,
            final(self).auto_backup,
            final(self).compression_level == 6,
            final(self).backup_history@ == Seq::<BackupEntry>::empty(),
            final(self).toasts@ == old(self).toasts@,
    {
        self.version = RpaVersion::V3_2;
        self.key = DEFAULT_KEY;
        self.indexes = EntryStore::new();
        self.archive_data = None;
        self.modified = false;
        self.search_filter = String::new();
        self.filter_type = String::from_str("all");
        self.sort_by = String::from_str("name");
        self.sort_ascending = true;
        self.auto_backup = true;
        self.compression_level = 6;
        self.backup_history = Vec::new();
        proof {
            assert(self.backup_history@ =~= Seq::<BackupEntry>::empty());
        }
        Ok(())
    }

    /// Load an archive from its bytes: parse the header, derive the key,
    /// decompress and decode the index (falling back to the heuristic scan),
    /// and replace the store wholesale. On an error, no partial state is
    /// retained: the session is exactly as it was.
    pub fn load_rpa(&mut self, data: Vec<u8>) -> (r: Result<(), CodecError>)
        requires
            old(self).wf(),
        ensures
            final(self).wf(),
            match r {
                Ok(_) => {
                    &&& spec_load(data@) matches Ok(t)
                    &&& final(self).version == t.0
                    &&& final(self).key == t.1
                    &&& final(self).indexes.map_view() == spec_store_of(t.2)
                    &&& backing_view(final(self).archive_data) == Some(data@)
                    &&& !final(self).modified
                    &&& final(self).search_filter == old(self).search_filter
                    &&& final(self).filter_type == old(self).filter_type
                    &&& final(self).sort_by == old(self).sort_by
                    &&& final(self).sort_ascending == old(self).sort_ascending
                    &&& final(self).auto_backup == old(self).auto_backup
                    &&& final(self).compression_level == old(self).compression_level
                    &&& final(self).backup_history == old(self).backup_history
                    &&& final(self).toasts == old(self).toasts
                },
                Err(e) => spec_load(data@) == Result::<
                    (RpaVersion, u32, Seq<(Seq<char>, EntryV)>),
                    CodecError,
                >::Err(e) && *final(self) == *old(self),
            },
    {
        let header: RpaHeader = match parse_header(data.as_slice()) {
            Ok(h) => h,
            Err(e) => {
                return Err(e);
            },
        };
        let n = data.len();
        let offset_usize: usize = if header.index_offset <= n as u64 {
            header.index_offset as usize
        } else {
            n
        };
        let compressed = vstd::slice::slice_subrange(data.as_slice(), offset_usize, n);
        proof {
            if header.index_offset > data@.len() {
                assert(compressed@ =~= Seq::<u8>::empty());
            }
        }
        let raw = match zlib_decompress(compressed) {
            Some(v) => v,
            None => {
                return Err(CodecError::DecompressionError);
            },
        };
        self.version = header.version;
        self.key = header.key;
        let pairs: Vec<(String, RpaFileEntry)> = match self.parse_index_pickle(raw.as_slice()) {
            Ok(p) => p,
            Err(_) => parse_binary_dict(raw.as_slice(), header.key),
        };
        let store = store_from_pairs(pairs);
        self.indexes = store;
        self.archive_data = Some(data);
        self.modified = false;
        Ok(())
    }

    /// Decode the decompressed index block with the session's key: a
    /// mapping of filenames to one-element lists of (offset, length, prefix)
    /// triples, each entry unmasked, entries of any other shape skipped.
    /// `MalformedIndex` exactly when the bytes do not decode to a mapping.
    pub fn parse_index_pickle(&self, data: &[u8]) -> (r: Result<
        Vec<(String, RpaFileEntry)>,
        CodecError,
    >)
        ensures
            match r {
                Ok(v) => spec_parse_index(data@, self.key) == Result::<
                    Seq<(Seq<char>, EntryV)>,
                    CodecError,
                >::Ok(pairs_view(v@)),
                Err(e) => spec_parse_index(data@, self.key) == Result::<
                    Seq<(Seq<char>, EntryV)>,
                    CodecError,
                >::Err(e),
            },
    {
        match pickle_parse(data) {
            Some(node) => decode_index(&node, self.key),
            None => Err(CodecError::MalformedIndex),
        }
    }

    /// What reading a filename from a store and backing bytes yields: the
    /// override when one is present; otherwise the prefix followed by the
    /// rest of the extent read from the backing bytes. Absent filenames are
    /// `EntryNotFound`; an on-disk entry without backing bytes is
    /// `NoBackingFile`; an extent that cannot be read is `ReadFailure`.
    pub open spec fn spec_read(
        m: Map<Seq<char>, EntryV>,
        backing: Option<Seq<u8>>,
        name: Seq<char>,
    ) -> Result<Seq<u8>, CodecError> {
        if !m.dom().contains(name) {
            Result::Err(CodecError::EntryNotFound)
        } else {
            let e = m[name];
            match e.data {
                Some(d) => Result::Ok(d),
                Option::None => match backing {
                    Option::None => Result::Err(CodecError::NoBackingFile),
                    Some(b) => if e.length < e.prefix.len() {
                        Result::Err(CodecError::ReadFailure)
                    } else if e.offset + (e.length - e.prefix.len()) > b.len() {
                        Result::Err(CodecError::ReadFailure)
                    } else {
                        Result::Ok(
                            e.prefix + b.subrange(
                                e.offset as int,
                                e.offset + (e.length - e.prefix.len()),
                            ),
                        )
                    },
                },
            }
        }
    }

    /// Read an entry's current payload: a copy of its override if it has
    /// one, otherwise its prefix followed by the remainder of its extent
    /// read from the backing bytes.
    pub fn load_file_data(&self, filename: &str) -> (r: Result<Vec<u8>, CodecError>)
        requires
            self.wf(),
        ensures
            match r {
                Ok(v) => Self::spec_read(
                    self.indexes.map_view(),
                    backing_view(self.archive_data),
                    filename@,
                ) == Result::<Seq<u8>, CodecError>::Ok(v@),
                Err(e) => Self::spec_read(
                    self.indexes.map_view(),
                    backing_view(self.archive_data),
                    filename@,
                ) == Result::<Seq<u8>, CodecError>::Err(e),
            },
    {
        let entry = match self.indexes.get(filename) {
            Some(e) => e,
            None => {
                return Err(CodecError::EntryNotFound);
            },
        };
        if let Some(d) = &entry.data {
            return Ok(vstd::slice::slice_to_vec(d.as_slice()));
        }
        let backing = match &self.archive_data {
            Some(b) => b,
            None => {
                return Err(CodecError::NoBackingFile);
            },
        };
        let prefix_len = entry.prefix.len();
        if entry.length < prefix_len as u64 {
            return Err(CodecError::ReadFailure);
        }
        let remaining = entry.length - prefix_len as u64;
        let blen = backing.len();
        if entry.offset > blen as u64 || remaining > (blen as u64 - entry.offset) {
            return Err(CodecError::ReadFailure);
        }
        let start = entry.offset as usize;
        let end = start + remaining as usize;
        let mut out = vstd::slice::slice_to_vec(entry.prefix.as_slice());
        let tail = vstd::slice::slice_subrange(backing.as_slice(), start, end);
        let mut k: usize = 0;
        let ghost out0 = out@;
        while k < tail.len()
            invariant
                0 <= k <= tail@.len(),
                out@ == out0 + tail@.subrange(0, k as int),
            decreases tail@.len() - k,
        {
            out.push(tail[k]);
            proof {
                assert(out@ =~= out0 + tail@.subrange(0, k + 1));
            }
            k = k + 1;
        }
        proof {
            assert(tail@.subrange(0, tail@.len() as int) =~= tail@);
            assert(out@ =~= entry.prefix@ + tail@);
        }
        Ok(out)
    }

    /// Give an entry a replacement payload, in memory only: its override
    /// becomes the given bytes, its length their count, and the entry and
    /// the session are marked modified. `EntryNotFound` exactly when the
    /// filename is not in the store, and then nothing changes.
    pub fn replace_file(&mut self, filename: &str, new_data: Vec<u8>) -> (r: Result<
        (),
        CodecError,
    >)
        requires
            old(self).wf(),
        ensures
            final(self).wf(),
            match r {
                Ok(_) => {
                    &&& old(self).indexes.map_view().dom().contains(filename@)
                    &&& final(self).indexes.map_view() == old(self).indexes.map_view().insert(
                        filename@,
                        (EntryV {
                            offset: old(self).indexes.map_view()[filename@].offset,
                            length: new_data@.len() as u64,
                            prefix: old(self).indexes.map_view()[filename@].prefix,
                            data: Some(new_data@),
                            modified: true,
                            to_delete: old(self).indexes.map_view()[filename@].to_delete,
                        }),
                    )
                    &&& final(self).modified
                    &&& final(self).version == old(self).version
                    &&& final(self).key == old(self).key
                    &&& final(self).archive_data == old(self).archive_data
                    &&& final(self).backup_history == old(self).backup_history
                },
                Err(e) => e == CodecError::EntryNotFound && !old(
                    self,
                ).indexes.map_view().dom().contains(filename@) && *final(self) == *old(self),
            },
    {
        let replaced = self.indexes.replace_data(filename, new_data);
        if replaced {
            self.modified = true;
            Ok(())
        } else {
            Err(CodecError::EntryNotFound)
        }
    }

    /// Mark an entry for deletion; it survives in the store but is dropped
    /// from any later save. A filename not in the store changes nothing.
    pub fn remove_file(&mut self, filename: &str)
        requires
            old(self).wf(),
        ensures
            final(self).wf(),
            old(self).indexes.map_view().dom().contains(filename@) ==> {
                &&& final(self).indexes.map_view() == old(self).indexes.map_view().insert(
                    filename@,
                    (EntryV {
                        offset: old(self).indexes.map_view()[filename@].offset,
                        length: old(self).indexes.map_view()[filename@].length,
                        prefix: old(self).indexes.map_view()[filename@].prefix,
                        data: old(self).indexes.map_view()[filename@].data,
                        modified: old(self).indexes.map_view()[filename@].modified,
                        to_delete: true,
                    }),
                )
                &&& final(self).modified
                &&& final(self).version == old(self).version
                &&& final(self).key == old(self).key
                &&& final(self).archive_data == old(self).archive_data
            },
            !old(self).indexes.map_view().dom().contains(filename@) ==> *final(self) == *old(
                self,
            ),
    {
        let marked = self.indexes.mark_deleted(filename);
        if marked {
            self.modified = true;
        }
    }

    /// Add a file to the archive, or overwrite one: the entry's payload is
    /// the given bytes, held in memory until a save. When auto-backup is on
    /// and the filename already has a readable payload, that payload is
    /// captured in the backup ring first (oldest backup evicted past the
    /// cap).
    pub fn add_file(&mut self, archive_name: &str, data: Vec<u8>)
        requires
            old(self).wf(),
        ensures
            final(self).wf(),
            final(self).indexes.map_view() == old(self).indexes.map_view().insert(
                archive_name@,
                (EntryV {
                    offset: 0,
                    length: data@.len() as u64,
                    prefix: Seq::<u8>::empty(),
                    data: Some(data@),
                    modified: true,
                    to_delete: false,
                }),
            ),
            final(self).modified,
            final(self).version == old(self).version,
            final(self).key == old(self).key,
            final(self).archive_data == old(self).archive_data,
            final(self).backup_history@.len() <= BACKUP_CAP,
            ({
                let captured = old(self).auto_backup && old(
                    self,
                ).indexes.map_view().dom().contains(archive_name@) && Self::spec_read(
                    old(self).indexes.map_view(),
                    backing_view(old(self).archive_data),
                    archive_name@,
                ) is Ok;
                if captured {
                    &&& final(self).backup_history@.len() > 0
                    &&& final(self).backup_history@.last().filename@ == archive_name@
                    &&& Self::spec_read(
                        old(self).indexes.map_view(),
                        backing_view(old(self).archive_data),
                        archive_name@,
                    ) == Result::<Seq<u8>, CodecError>::Ok(
                        final(self).backup_history@.last().data@,
                    )
                    &&& final(self).backup_history@.drop_last() == if old(
                        self,
                    ).backup_history@.len() < BACKUP_CAP {
                        old(self).backup_history@
                    } else {
                        old(self).backup_history@.drop_first()
                    }
                } else {
                    final(self).backup_history == old(self).backup_history
                }
            }),
    {
        if self.auto_backup && self.indexes.contains(archive_name) {
            let got = self.load_file_data(archive_name);
            if let Ok(old_data) = got {
                let backup = BackupEntry {
                    filename: archive_name.to_owned(),
                    data: old_data,
                    timestamp: now_millis(),
                };
                self.backup_history.push(backup);
                if self.backup_history.len() > BACKUP_CAP {
                    let _evicted = self.backup_history.remove(0);
                    proof {
                        assert(self.backup_history@ =~= old(
                            self,
                        ).backup_history@.drop_first().push(backup));
                        assert(self.backup_history@.drop_last() =~= old(
                            self,
                        ).backup_history@.drop_first());
                    }
                } else {
                    proof {
                        assert(self.backup_history@.drop_last() =~= old(self).backup_history@);
                    }
                }
            }
        }
        let length = data.len() as u64;
        let entry = RpaFileEntry {
            offset: 0,
            length,
            prefix: Vec::new(),
            data: Some(data),
            modified: true,
            to_delete: false,
        };
        self.indexes.insert(archive_name.to_owned(), entry);
        self.modified = true;
    }

    /// Rebuild the archive from the store and the backing bytes: every
    /// surviving entry's payload re-emitted contiguously after the reserved
    /// header region in lexicographic filename order, a fresh index
    /// compressed and appended, and the header line written over the start.
    /// `SourceDataMissing` exactly when an unmodified entry's extent cannot
    /// be sliced out of the backing bytes.
    #[verifier::loop_isolation(false)]
    #[verifier::rlimit(60)]
    pub fn save_rpa(&self) -> (r: Result<Vec<u8>, CodecError>)
        requires
            self.wf(),
            self.archive_data is Some,
            self.indexes@.len() > 0,
            spec_names_fit(names_of_pairs(self.indexes@)),
        ensures
            match r {
                Ok(out) => spec_save_output(
                    self.version,
                    self.key,
                    self.indexes@,
                    self.archive_data.unwrap()@,
                ) == Result::<Seq<u8>, CodecError>::Ok(out@),
                Err(e) => spec_save_output(
                    self.version,
                    self.key,
                    self.indexes@,
                    self.archive_data.unwrap()@,
                ) == Result::<Seq<u8>, CodecError>::Err(e),
            },
            self.version == RpaVersion::V3_0 ==> (r matches Ok(out) ==> spec_reload_matches(
                self.indexes@,
                self.archive_data.unwrap()@,
                self.key,
                out@,
            )),
    {
        let backing: &Vec<u8> = match &self.archive_data {
            Some(b) => b,
            None => unreached(),
        };
        let names = self.collect_names();
        proof {
            assert forall|a: int, b: int|
                0 <= a < b < names_of_pairs(self.indexes@).len() implies (#[trigger] names_of_pairs(
                self.indexes@,
            )[a]) != (#[trigger] names_of_pairs(self.indexes@)[b]) by {
                assert(names_of_pairs(self.indexes@)[a] == self.indexes@[a].0);
                assert(names_of_pairs(self.indexes@)[b] == self.indexes@[b].0);
            }
            lemma_sort_names_props(names_of_pairs(self.indexes@));
        }
        let sorted = sort_names(names);
        proof {
            broadcast use vstd::seq_lib::group_to_multiset_ensures;

            assert forall|i: int|
                0 <= i < names_view(sorted@).len() implies (#[trigger] names_view(
                sorted@,
            )[i]).len() < 0x40000000 by {
                let sv = names_view(sorted@);
                assert(sv.to_multiset().count(sv[i]) > 0);
                assert(names_of_pairs(self.indexes@).to_multiset().count(sv[i]) > 0);
                assert(names_of_pairs(self.indexes@).contains(sv[i]));
                let j = choose|j: int|
                    0 <= j < names_of_pairs(self.indexes@).len() && names_of_pairs(
                        self.indexes@,
                    )[j] == sv[i];
                assert(names_of_pairs(self.indexes@)[j].len() < 0x40000000);
            }
        }
        let ghost bk = backing@;
        let (mut out, recs) = match self.save_payloads(&sorted, backing) {
            Ok(t) => t,
            Err(e) => {
                return Err(e);
            },
        };
        let ghost body = out@.subrange(HEADER_RESERVE as int, out@.len() as int);
        let raw_index = pickle_encode_index(&recs);
        let mut comp = zlib_compress(raw_index.as_slice());
        let index_offset = out.len() as u64;
        let ghost before_comp = out@;
        let ghost comp_v = comp@;
        out.append(&mut comp);
        let header = build_header_line(self.version, index_offset, self.key);
        let hl = header.len();
        proof {
            assert(hl <= HEADER_RESERVE);
        }
        let ghost whole = out@;
        let mut w: usize = 0;
        while w < hl
            invariant
                0 <= w <= hl,
                out@.len() == whole.len(),
                out@ == header@.subrange(0, w as int) + whole.subrange(
                    w as int,
                    whole.len() as int,
                ),
            decreases hl - w,
        {
            let b = header[w];
            out[w] = b;
            proof {
                assert(out@ =~= header@.subrange(0, w + 1) + whole.subrange(
                    w + 1,
                    whole.len() as int,
                ));
            }
            w = w + 1;
        }
        proof {
            assert(header@.subrange(0, hl as int) =~= header@);
            assert(out@ =~= header@ + whole.subrange(hl as int, whole.len() as int));
            assert(before_comp =~= spec_zeros(HEADER_RESERVE as int) + body);
            assert(whole =~= (spec_zeros(HEADER_RESERVE as int) + body) + comp_v);
            assert(whole.subrange(hl as int, whole.len() as int) =~= spec_zeros(
                (HEADER_RESERVE - hl) as int,
            ) + body + comp_v);
            assert(out@ =~= header@ + (spec_zeros((HEADER_RESERVE - hl) as int) + body + comp_v));
            assert(bk == self.archive_data.unwrap()@);
            assert(spec_sort_names(names_of_pairs(self.indexes@)) == names_view(sorted@));
            assert(index_offset == HEADER_RESERVE + body.len());
            assert(comp_v == deflate_of(pickle_index_bytes_of(recs_view(recs@))));
            assert(out@ =~= spec_header_line(self.version, index_offset, self.key) + spec_zeros(
                HEADER_RESERVE - spec_header_line(self.version, index_offset, self.key).len(),
            ) + body + comp_v);
            assert(spec_save_output(self.version, self.key, self.indexes@, bk) == Result::<
                Seq<u8>,
                CodecError,
            >::Ok(out@));
            if self.version == RpaVersion::V3_0 {
                lemma_reload_after_save(
                    self.indexes@,
                    bk,
                    self.key,
                    names_view(sorted@),
                    body,
                    recs_view(recs@),
                    raw_index@,
                    comp_v,
                    out@,
                    index_offset,
                );
            }
        }
        Ok(out)
    }

    /// The store's filenames, in store order.
    fn collect_names(&self) -> (r: Vec<String>)
        ensures
            names_view(r@) == names_of_pairs(self.indexes@),
    {
        let n = self.indexes.len();
        let mut names: Vec<String> = Vec::new();
        let mut i: usize = 0;
        proof {
            assert(names_view(names@) =~= names_of_pairs(self.indexes@).subrange(0, 0));
        }
        while i < n
            invariant
                0 <= i <= n,
                n == self.indexes@.len(),
                names_view(names@) == names_of_pairs(self.indexes@).subrange(0, i as int),
            decreases n - i,
        {
            let nm = self.indexes.name_at(i).clone();
            let ghost old_names = names@;
            names.push(nm);
            proof {
                assert(names_view(names@) =~= names_view(old_names).push(nm@));
                assert(names_of_pairs(self.indexes@).subrange(0, i + 1) =~= names_of_pairs(
                    self.indexes@,
                ).subrange(0, i as int).push(self.indexes@[i as int].0));
            }
            i = i + 1;
        }
        proof {
            assert(names_of_pairs(self.indexes@).subrange(0, n as int) =~= names_of_pairs(
                self.indexes@,
            ));
        }
        names
    }

    /// Write the surviving payloads in the given (sorted) filename order:
    /// the output bytes hold the reserved zero region followed by the
    /// payloads, and the fresh records carry each payload's write position
    /// and length, stored as the save's version dictates.
    #[verifier::rlimit(100)]
    fn save_payloads(&self, sorted: &Vec<String>, backing: &Vec<u8>) -> (r: Result<
        (Vec<u8>, Vec<(String, u64, u64, Vec<u8>)>),
        CodecError,
    >)
        requires
            self.wf(),
            spec_names_sorted(names_view(sorted@)),
            spec_names_fit(names_view(sorted@)),
            names_view(sorted@).to_multiset() == names_of_pairs(self.indexes@).to_multiset(),
        ensures
            match r {
                Ok(t) => {
                    &&& t.0@.len() >= HEADER_RESERVE
                    &&& t.0@.subrange(0, HEADER_RESERVE as int) == spec_zeros(
                        HEADER_RESERVE as int,
                    )
                    &&& spec_save_body(
                        names_view(sorted@),
                        spec_store_of(self.indexes@),
                        backing@,
                        self.version,
                        self.key,
                        HEADER_RESERVE as int,
                    ) == Result::<(Seq<u8>, Seq<(Seq<char>, u64, u64, Seq<u8>)>), CodecError>::Ok(
                        (
                            (
                                t.0@.subrange(HEADER_RESERVE as int, t.0@.len() as int),
                                recs_view(t.1@),
                            )
                        ),
                    )
                    &&& spec_recs_sorted(recs_view(t.1@))
                    &&& crate::pickle::spec_recs_fit(recs_view(t.1@))
                },
                Err(e) => spec_save_body(
                    names_view(sorted@),
                    spec_store_of(self.indexes@),
                    backing@,
                    self.version,
                    self.key,
                    HEADER_RESERVE as int,
                ) == Result::<(Seq<u8>, Seq<(Seq<char>, u64, u64, Seq<u8>)>), CodecError>::Err(e),
            },
    {
        let ghost sorted_v = names_view(sorted@);
        let ghost m = spec_store_of(self.indexes@);
        let ghost bk = backing@;
        let ghost full = spec_save_body(
            sorted_v,
            m,
            bk,
            self.version,
            self.key,
            HEADER_RESERVE as int,
        );
        let blen = backing.len();
        let mut out: Vec<u8> = Vec::new();
        let mut z: usize = 0;
        while z < HEADER_RESERVE
            invariant
                0 <= z <= HEADER_RESERVE,
                out@ =~= spec_zeros(z as int),
            decreases HEADER_RESERVE - z,
        {
            out.push(0u8);
            proof {
                assert(out@ =~= spec_zeros(z + 1));
            }
            z = z + 1;
        }
        let mut recs: Vec<(String, u64, u64, Vec<u8>)> = Vec::new();
        let ghost mut body: Seq<u8> = Seq::<u8>::empty();
        let sn = sorted.len();
        let mut k: usize = 0;
        proof {
            assert(out@ =~= spec_zeros(HEADER_RESERVE as int) + body);
            assert(sorted_v.subrange(0, sn as int) =~= sorted_v);
            assert(recs_view(recs@) =~= Seq::<(Seq<char>, u64, u64, Seq<u8>)>::empty());
        }
        while k < sn
            invariant
                0 <= k <= sn,
                sn == sorted@.len(),
                sorted_v == names_view(sorted@),
                sorted_v.len() == sn,
                spec_names_sorted(sorted_v),
                sorted_v.to_multiset() == names_of_pairs(self.indexes@).to_multiset(),
                self.wf(),
                m == spec_store_of(self.indexes@),
                bk == backing@,
                blen == bk.len(),
                full == spec_save_body(sorted_v, m, bk, self.version, self.key, HEADER_RESERVE as int),
                out@ == spec_zeros(HEADER_RESERVE as int) + body,
                out@.len() == HEADER_RESERVE + body.len(),
                spec_names_fit(sorted_v),
                spec_recs_sorted(recs_view(recs@)),
                crate::pickle::spec_recs_fit(recs_view(recs@)),
                recs@.len() > 0 ==> exists|j: int|
                    0 <= j < k && (#[trigger] recs_view(recs@).last().0) == sorted_v[j],
                match spec_save_body(
                    sorted_v.subrange(k as int, sn as int),
                    m,
                    bk,
                    self.version,
                    self.key,
                    out@.len() as int,
                ) {
                    Result::Ok(t) => full == Result::<
                        (Seq<u8>, Seq<(Seq<char>, u64, u64, Seq<u8>)>),
                        CodecError,
                    >::Ok((body + t.0, recs_view(recs@) + t.1)),
                    Result::Err(e) => full == Result::<
                        (Seq<u8>, Seq<(Seq<char>, u64, u64, Seq<u8>)>),
                        CodecError,
                    >::Err(e),
                },
            decreases sn - k,
        {
            let ghost rest_k = sorted_v.subrange(k as int, sn as int);
            let ghost rest_next = sorted_v.subrange(k + 1, sn as int);
            proof {
                assert(rest_k.len() > 0);
                assert(rest_k[0] == sorted_v[k as int]);
                assert(rest_k.drop_first() =~= rest_next);
                lemma_sorted_name_in_store(self.indexes@, sorted_v, k as int);
                assert(m.dom().contains(sorted_v[k as int]));
            }
            let name: &String = &sorted[k];
            let entry: &RpaFileEntry = match self.indexes.get(name.as_str()) {
                Some(e) => e,
                None => unreached(),
            };
            proof {
                assert(entry@ == m[sorted_v[k as int]]);
            }
            if entry.to_delete {
                proof {
                    assert(spec_save_body(rest_k, m, bk, self.version, self.key, out@.len() as int)
                        == spec_save_body(
                        rest_next,
                        m,
                        bk,
                        self.version,
                        self.key,
                        out@.len() as int,
                    ));
                }
                k = k + 1;
            } else {
                let mut payload: Vec<u8>;
                if let Some(d) = &entry.data {
                    payload = vstd::slice::slice_to_vec(d.as_slice());
                } else {
                    if entry.offset > blen as u64 || entry.length > blen as u64 - entry.offset {
                        proof {
                            assert(spec_payload_of(m[sorted_v[k as int]], bk) is None);
                            assert(spec_save_body(
                                rest_k,
                                m,
                                bk,
                                self.version,
                                self.key,
                                out@.len() as int,
                            ) == Result::<
                                (Seq<u8>, Seq<(Seq<char>, u64, u64, Seq<u8>)>),
                                CodecError,
                            >::Err(CodecError::SourceDataMissing));
                        }
                        return Err(CodecError::SourceDataMissing);
                    }
                    let start = entry.offset as usize;
                    let end = start + entry.length as usize;
                    payload = vstd::slice::slice_to_vec(
                        vstd::slice::slice_subrange(backing.as_slice(), start, end),
                    );
                }
                proof {
                    assert(spec_payload_of(m[sorted_v[k as int]], bk) == Some(payload@));
                }
                let cursor = out.len();
                let stored: (u64, u64) = match self.version {
                    RpaVersion::V3_0 => (
                        mask_value(cursor as u64, self.key),
                        mask_value(payload.len() as u64, self.key),
                    ),
                    _ => (cursor as u64, payload.len() as u64),
                };
                proof {
                    assert((stored.0, stored.1) == spec_stored_words(
                        self.version,
                        self.key,
                        cursor as u64,
                        payload@.len() as u64,
                    ));
                }
                let ghost old_recs = recs@;
                let ghost old_body = body;
                let ghost p = payload@;
                let ghost rec = (sorted_v[k as int], stored.0, stored.1, Seq::<u8>::empty());
                recs.push((name.clone(), stored.0, stored.1, Vec::new()));
                proof {
                    assert(recs_view(recs@) =~= recs_view(old_recs) + seq![rec]);
                    lemma_recs_sorted_push(recs_view(old_recs), rec, sorted_v, k as int);
                    assert(spec_recs_sorted(recs_view(recs@)));
                    assert forall|a: int|
                        0 <= a < recs_view(recs@).len() implies (#[trigger] recs_view(
                        recs@,
                    )[a]).0.len() < 0x40000000 && recs_view(recs@)[a].3.len() < 0x100000000 by {
                        if a < recs_view(old_recs).len() {
                            assert(recs_view(recs@)[a] == recs_view(old_recs)[a]);
                        } else {
                            assert(recs_view(recs@)[a] == rec);
                            assert(sorted_v[k as int].len() < 0x40000000);
                        }
                    }
                }
                out.append(&mut payload);
                proof {
                    body = old_body + p;
                    assert(out@ =~= spec_zeros(HEADER_RESERVE as int) + body);
                    let c0 = (HEADER_RESERVE + old_body.len()) as int;
                    assert(out@.len() == c0 + p.len());
                    lemma_save_body_step(rest_k, m, bk, self.version, self.key, c0);
                    assert(rest_k[0] == sorted_v[k as int]);
                    match spec_save_body(
                        rest_next,
                        m,
                        bk,
                        self.version,
                        self.key,
                        out@.len() as int,
                    ) {
                        Result::Ok(t) => {
                            assert(old_body + (p + t.0) =~= body + t.0);
                            assert(recs_view(old_recs) + (seq![rec] + t.1) =~= recs_view(recs@)
                                + t.1);
                            assert(full == Result::<
                                (Seq<u8>, Seq<(Seq<char>, u64, u64, Seq<u8>)>),
                                CodecError,
                            >::Ok((body + t.0, recs_view(recs@) + t.1)));
                        },
                        Result::Err(e) => {
                            assert(full == Result::<
                                (Seq<u8>, Seq<(Seq<char>, u64, u64, Seq<u8>)>),
                                CodecError,
                            >::Err(e));
                        },
                    }
                }
                k = k + 1;
            }
        }
        proof {
            assert(sorted_v.subrange(sn as int, sn as int) =~= Seq::<Seq<char>>::empty());
            assert(body + Seq::<u8>::empty() =~= body);
            assert(recs_view(recs@) + Seq::<(Seq<char>, u64, u64, Seq<u8>)>::empty() =~= recs_view(
                recs@,
            ));
            assert(full == Result::<
                (Seq<u8>, Seq<(Seq<char>, u64, u64, Seq<u8>)>),
                CodecError,
            >::Ok((body, recs_view(recs@))));
            assert(out@.subrange(0, HEADER_RESERVE as int) =~= spec_zeros(HEADER_RESERVE as int));
            assert(out@.subrange(HEADER_RESERVE as int, out@.len() as int) =~= body);
        }
        Ok((out, recs))
    }

    /// Raise a notification banner.
    pub fn add_toast(&mut self, message: String)
        ensures
            final(self).toasts@.len() == old(self).toasts@.len() + 1,
            final(self).toasts@.last().message@ == message@,
            final(self).toasts@.drop_last() == old(self).toasts@,
            final(self).indexes == old(self).indexes,
    {
        let t = Toast::new(message);
        self.toasts.push(t);
        proof {
            assert(final(self).toasts@.drop_last() =~= old(self).toasts@);
        }
    }
}

} // verus!
