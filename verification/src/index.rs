//! Structured index decode: the decompressed block must decode to a mapping
//! from filename to a one-element list holding an (offset, length, prefix)
//! triple; offset and length are unmasked with the derived key. Entries of
//! any other shape are skipped one by one — only a root that is not a
//! mapping fails the whole decode.
use vstd::prelude::*;

use crate::entry::{EntryV, RpaFileEntry};
use crate::error::CodecError;
use crate::mask::{i64_to_u64, mask_value, spec_mask};
use crate::pickle::{spec_entry_shape, PickleKey, PickleNode};

verus! {

/// Why the permissive decoder skipped a dictionary entry.
#[derive(Debug, Clone, Copy, PartialEq, Eq, Structural)]
pub enum SkipReason {
    /// The dictionary key is not a string.
    NonStringKey,
    /// The value is not a list.
    NotAList,
    /// The value is a list of more or fewer than one element.
    WrongListLength,
    /// The list's element is not a tuple.
    NotATuple,
    /// The tuple has more or fewer than three fields.
    WrongTupleArity,
    /// The tuple's fields are not (integer, integer, byte string).
    WrongValueTypes,
}

/// The outcome of decoding one dictionary entry.
#[derive(Debug)]
pub enum DecodedPair {
    /// The entry matched the expected shape: filename and unmasked entry.
    Accepted(String, RpaFileEntry),
    /// The entry was skipped, with the reason.
    Skipped(SkipReason),
}

/// What one well-shaped dictionary pair decodes to: the filename, and the
/// entry with offset and length unmasked. `None` when the pair is skipped.
pub open spec fn spec_decode_pair(pair: (PickleKey, PickleNode), key: u32) -> Option<
    (Seq<char>, EntryV),
> {
    match pair.0 {
        PickleKey::Str(s) => match spec_entry_shape(pair.1) {
            Some(t) => Some(
                ((
                    s@,
                    EntryV {
                        offset: spec_mask(t.0, key),
                        length: spec_mask(t.1, key),
                        prefix: t.2,
                        data: None,
                        modified: false,
                        to_delete: false,
                    },
                )),
            ),
            None => None,
        },
        PickleKey::Other => None,
    }
}

/// Why a pair is skipped; `None` exactly when the pair decodes.
pub open spec fn spec_skip_reason(pair: (PickleKey, PickleNode)) -> Option<SkipReason> {
    match pair.0 {
        PickleKey::Other => Some(SkipReason::NonStringKey),
        PickleKey::Str(_) => match pair.1 {
            PickleNode::List(l) => if l@.len() != 1 {
                Some(SkipReason::WrongListLength)
            } else {
                match l@[0] {
                    PickleNode::Tuple(t) => if t@.len() != 3 {
                        Some(SkipReason::WrongTupleArity)
                    } else {
                        match (t@[0], t@[1], t@[2]) {
                            (PickleNode::I64(_), PickleNode::I64(_), PickleNode::Bytes(_)) => Option::None,
                            _ => Some(SkipReason::WrongValueTypes),
                        }
                    },
                    _ => Some(SkipReason::NotATuple),
                }
            },
            _ => Some(SkipReason::NotAList),
        },
    }
}

/// Decode one dictionary entry: accepted exactly when the key is a string
/// and the value has the entry shape; otherwise skipped with the reason.
pub fn decode_pair(k: &PickleKey, v: &PickleNode, key: u32) -> (r: DecodedPair)
    ensures
        match r {
            DecodedPair::Accepted(name, e) => spec_decode_pair((*k, *v), key) == Some(
                ((name@, e@)),
            ) && spec_skip_reason((*k, *v)) is None,
            DecodedPair::Skipped(why) => spec_skip_reason((*k, *v)) == Some(why)
                && spec_decode_pair((*k, *v), key) is None,
        },
{
    let name = match k {
        PickleKey::Str(s) => s,
        PickleKey::Other => {
            return DecodedPair::Skipped(SkipReason::NonStringKey);
        },
    };
    let items = match v {
        PickleNode::List(l) => l,
        _ => {
            return DecodedPair::Skipped(SkipReason::NotAList);
        },
    };
    if items.len() != 1 {
        return DecodedPair::Skipped(SkipReason::WrongListLength);
    }
    let fields = match &items[0] {
        PickleNode::Tuple(t) => t,
        _ => {
            return DecodedPair::Skipped(SkipReason::NotATuple);
        },
    };
    if fields.len() != 3 {
        return DecodedPair::Skipped(SkipReason::WrongTupleArity);
    }
    match (&fields[0], &fields[1], &fields[2]) {
        (PickleNode::I64(o), PickleNode::I64(n), PickleNode::Bytes(p)) => {
            let offset = mask_value(i64_to_u64(*o), key);
            let length = mask_value(i64_to_u64(*n), key);
            let prefix = vstd::slice::slice_to_vec(p.as_slice());
            DecodedPair::Accepted(name.clone(), RpaFileEntry::on_disk(offset, length, prefix))
        },
        _ => DecodedPair::Skipped(SkipReason::WrongValueTypes),
    }
}

/// The accepted entries of a pair sequence, in dictionary order, skipped
/// pairs left out.
pub open spec fn spec_decode_pairs(pairs: Seq<(PickleKey, PickleNode)>, key: u32) -> Seq<
    (Seq<char>, EntryV),
>
    decreases pairs.len(),
{
    if pairs.len() == 0 {
        Seq::<(Seq<char>, EntryV)>::empty()
    } else {
        spec_decode_pairs(pairs.drop_last(), key) + (match spec_decode_pair(pairs.last(), key) {
            Some(p) => seq![p],
            None => Seq::<(Seq<char>, EntryV)>::empty(),
        })
    }
}

/// View of accepted (filename, entry) pairs.
pub open spec fn pairs_view(s: Seq<(String, RpaFileEntry)>) -> Seq<(Seq<char>, EntryV)> {
    s.map_values(|p: (String, RpaFileEntry)| (p.0@, p.1@))
}

/// Decode every entry of the index dictionary, keeping the accepted ones in
/// dictionary order.
pub fn decode_index_pairs(pairs: &Vec<(PickleKey, PickleNode)>, key: u32) -> (r: Vec<
    (String, RpaFileEntry),
>)
    ensures
        pairs_view(r@) == spec_decode_pairs(pairs@, key),
{
    let n = pairs.len();
    let mut out: Vec<(String, RpaFileEntry)> = Vec::new();
    proof {
        assert(pairs_view(out@) =~= spec_decode_pairs(pairs@.subrange(0, 0), key));
    }
    let mut i: usize = 0;
    while i < n
        invariant
            0 <= i <= n,
            n == pairs@.len(),
            pairs_view(out@) == spec_decode_pairs(pairs@.subrange(0, i as int), key),
        decreases n - i,
    {
        let ghost done = pairs@.subrange(0, i as int);
        let ghost done1 = pairs@.subrange(0, i + 1);
        proof {
            assert(done1.drop_last() =~= done);
            assert(done1.last() == pairs@[i as int]);
        }
        let ghost old_out = out@;
        match decode_pair(&pairs[i].0, &pairs[i].1, key) {
            DecodedPair::Accepted(name, e) => {
                proof {
                    assert((pairs@[i as int].0, pairs@[i as int].1) == pairs@[i as int]);
                }
                out.push((name, e));
                proof {
                    assert(pairs_view(out@) =~= pairs_view(old_out) + seq![
                        (out@.last().0@, out@.last().1@),
                    ]);
                }
            },
            DecodedPair::Skipped(_) => {
                proof {
                    assert((pairs@[i as int].0, pairs@[i as int].1) == pairs@[i as int]);
                    assert(pairs_view(out@) =~= spec_decode_pairs(done1, key));
                }
            },
        }
        i = i + 1;
    }
    proof {
        assert(pairs@.subrange(0, n as int) =~= pairs@);
    }
    out
}

/// The entry a record decodes to after unmasking.
pub open spec fn spec_rec_entry(rec: (Seq<char>, u64, u64, Seq<u8>), key: u32) -> (
    Seq<char>,
    EntryV,
) {
    (
        rec.0,
        EntryV {
            offset: spec_mask(rec.1, key),
            length: spec_mask(rec.2, key),
            prefix: rec.3,
            data: Option::None,
            modified: false,
            to_delete: false,
        },
    )
}

/// A dictionary whose every pair matches its record decodes to exactly
/// those records, each accepted and unmasked.
pub proof fn lemma_decode_matched_pairs(
    pairs: Seq<(crate::pickle::PickleKey, PickleNode)>,
    recs: Seq<(Seq<char>, u64, u64, Seq<u8>)>,
    key: u32,
)
    requires
        pairs.len() == recs.len(),
        forall|i: int|
            0 <= i < recs.len() ==> crate::pickle::pair_matches_rec(#[trigger] pairs[i], recs[i]),
    ensures
        spec_decode_pairs(pairs, key) == recs.map_values(
            |r: (Seq<char>, u64, u64, Seq<u8>)| spec_rec_entry(r, key),
        ),
    decreases pairs.len(),
{
    let f = |r: (Seq<char>, u64, u64, Seq<u8>)| spec_rec_entry(r, key);
    if pairs.len() == 0 {
        assert(spec_decode_pairs(pairs, key) =~= recs.map_values(f));
    } else {
        assert(forall|i: int|
            0 <= i < recs.len() - 1 ==> crate::pickle::pair_matches_rec(
                #[trigger] pairs.drop_last()[i],
                recs.drop_last()[i],
            ));
        lemma_decode_matched_pairs(pairs.drop_last(), recs.drop_last(), key);
        let pr = pairs.last();
        let rc = recs.last();
        assert(crate::pickle::pair_matches_rec(pairs[pairs.len() - 1], recs[recs.len() - 1]));
        assert(spec_decode_pair(pr, key) == Some(spec_rec_entry(rc, key)));
        assert(recs.map_values(f).drop_last() =~= recs.drop_last().map_values(f));
        assert(recs.map_values(f).last() == spec_rec_entry(rc, key));
        assert(spec_decode_pairs(pairs, key) =~= recs.map_values(f));
    }
}

/// What decoding an index root yields: the accepted entries when the root
/// is a mapping, `MalformedIndex` otherwise.
pub open spec fn spec_decode_index(n: PickleNode, key: u32) -> Result<
    Seq<(Seq<char>, EntryV)>,
    CodecError,
> {
    match n {
        PickleNode::Dict(pairs) => Result::Ok(spec_decode_pairs(pairs@, key)),
        _ => Result::Err(CodecError::MalformedIndex),
    }
}

/// Decode a parsed index root: the accepted entries of the mapping, or
/// `MalformedIndex` when the root is not a mapping.
pub fn decode_index(node: &PickleNode, key: u32) -> (r: Result<
    Vec<(String, RpaFileEntry)>,
    CodecError,
>)
    ensures
        match r {
            Ok(v) => spec_decode_index(*node, key) == Result::<
                Seq<(Seq<char>, EntryV)>,
                CodecError,
            >::Ok(pairs_view(v@)),
            Err(e) => spec_decode_index(*node, key) == Result::<
                Seq<(Seq<char>, EntryV)>,
                CodecError,
            >::Err(e),
        },
{
    match node {
        PickleNode::Dict(pairs) => Ok(decode_index_pairs(pairs, key)),
        _ => Err(CodecError::MalformedIndex),
    }
}

} // verus!
