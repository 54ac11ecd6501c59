//! The structured object notation of the index block, through the
//! serde-pickle crate behind trusted items. Decoded values are mirrored
//! into the codec's own node type, so the permissive per-entry decode is
//! ordinary verified logic; encoding the rebuilt index goes through one
//! trusted call whose contract states that decoding its output restores
//! the records.
use vstd::prelude::*;

use crate::mask::{spec_i64_to_u64, u64_to_i64};
use crate::strutil::spec_chars_lt;

verus! {

/// A dictionary key of a decoded index: a filename string, or any other
/// key shape, which the decoder skips.
#[derive(Debug)]
pub enum PickleKey {
    Str(String),
    Other,
}

/// The part of the structured object notation the index decoder reads.
/// Shapes the codec never accepts (floats, sets, numbers beyond 64 bits,
/// and the rest) all map to `Other`.
#[derive(Debug)]
pub enum PickleNode {
    I64(i64),
    Bytes(Vec<u8>),
    Str(String),
    List(Vec<PickleNode>),
    Tuple(Vec<PickleNode>),
    Dict(Vec<(PickleKey, PickleNode)>),
    Other,
}

#[verifier::external_type_specification]
#[verifier::external_body]
pub struct ExPickleValue(serde_pickle::Value);

#[verifier::external_type_specification]
#[verifier::external_body]
pub struct ExPickleHashableValue(serde_pickle::HashableValue);

/// Relies on serde_pickle's `HashableValue`: moves a string key out, one
/// variant arm each.
#[verifier::external_body]
fn key_of_hashable(k: serde_pickle::HashableValue) -> PickleKey {
    match k {
        serde_pickle::HashableValue::String(s) => PickleKey::Str(s),
        _ => PickleKey::Other,
    }
}

/// Relies on serde_pickle's `Value`: mirrors the decoded tree into the
/// codec's own node type, one variant arm each, moving fields only.
#[verifier::external_body]
fn node_of_value(v: serde_pickle::Value) -> PickleNode {
    match v {
        serde_pickle::Value::I64(i) => PickleNode::I64(i),
        serde_pickle::Value::Bytes(b) => PickleNode::Bytes(b),
        serde_pickle::Value::String(s) => PickleNode::Str(s),
        serde_pickle::Value::List(l) => PickleNode::List(
            l.into_iter().map(node_of_value).collect(),
        ),
        serde_pickle::Value::Tuple(t) => PickleNode::Tuple(
            t.into_iter().map(node_of_value).collect(),
        ),
        serde_pickle::Value::Dict(d) => PickleNode::Dict(
            d.into_iter().map(|p| (key_of_hashable(p.0), node_of_value(p.1))).collect(),
        ),
        _ => PickleNode::Other,
    }
}

/// What decoding the structured object notation yields on a byte sequence,
/// mirrored as the codec's node type: the decoded root, or nothing when the
/// bytes are not one complete, well-formed encoding.
pub uninterp spec fn pickle_index_of(data: Seq<u8>) -> Option<PickleNode>;

/// Relies on serde_pickle's `value_from_slice` (with strings decoded as
/// text): decoding is a function of the input bytes alone.
#[verifier::external_body]
pub fn pickle_parse(data: &[u8]) -> (r: Option<PickleNode>)
    ensures
        r == pickle_index_of(data@),
{
    match serde_pickle::value_from_slice(data, serde_pickle::DeOptions::new().decode_strings()) {
        Ok(v) => Some(node_of_value(v)),
        Err(_) => None,
    }
}

/// An index record as it is written into a rebuilt archive: filename,
/// stored offset word, stored length word, prefix bytes.
pub open spec fn recs_view(recs: Seq<(String, u64, u64, Vec<u8>)>) -> Seq<
    (Seq<char>, u64, u64, Seq<u8>),
> {
    recs.map_values(|r: (String, u64, u64, Vec<u8>)| (r.0@, r.1, r.2, r.3@))
}

/// What encoding a record list as the structured object notation yields:
/// a function of the records alone.
pub uninterp spec fn pickle_index_bytes_of(recs: Seq<(Seq<char>, u64, u64, Seq<u8>)>) -> Seq<u8>;

/// Whether a decoded node is the index dictionary holding exactly these
/// records, in order: a mapping whose i-th key is the i-th filename and
/// whose i-th value is a one-element list of a (stored offset, stored
/// length, prefix) triple.
pub open spec fn node_is_index_dict_of(
    n: PickleNode,
    recs: Seq<(Seq<char>, u64, u64, Seq<u8>)>,
) -> bool {
    &&& n matches PickleNode::Dict(pairs)
    &&& n->Dict_0@.len() == recs.len()
    &&& forall|i: int|
        0 <= i < recs.len() ==> pair_matches_rec(#[trigger] n->Dict_0@[i], recs[i])
}

/// One dictionary pair carrying one index record.
pub open spec fn pair_matches_rec(
    pair: (PickleKey, PickleNode),
    rec: (Seq<char>, u64, u64, Seq<u8>),
) -> bool {
    &&& pair.0 matches PickleKey::Str(s) && s@ == rec.0
    &&& spec_entry_shape(pair.1) == Some((rec.1, rec.2, rec.3))
}

/// The exact shape of a decodable index entry value: a one-element list
/// holding a 3-tuple of two 64-bit integers and a byte string. The integers
/// are reported as the unsigned words with the same bits.
pub open spec fn spec_entry_shape(v: PickleNode) -> Option<(u64, u64, Seq<u8>)> {
    match v {
        PickleNode::List(l) => if l@.len() == 1 {
            match l@[0] {
                PickleNode::Tuple(t) => if t@.len() == 3 {
                    match (t@[0], t@[1], t@[2]) {
                        (PickleNode::I64(o), PickleNode::I64(n), PickleNode::Bytes(p)) => Some(
                            ((spec_i64_to_u64(o), spec_i64_to_u64(n), p@)),
                        ),
                        _ => Option::None,
                    }
                } else {
                    Option::None
                },
                _ => Option::None,
            }
        } else {
            Option::None
        },
        _ => Option::None,
    }
}

/// Decoding these bytes yields the index dictionary of exactly these
/// records.
pub open spec fn pickle_decodes_to(
    bytes: Seq<u8>,
    recs: Seq<(Seq<char>, u64, u64, Seq<u8>)>,
) -> bool {
    match pickle_index_of(bytes) {
        Some(n) => node_is_index_dict_of(n, recs),
        Option::None => false,
    }
}

/// Strictly ascending filenames, record by record.
pub open spec fn spec_recs_sorted(recs: Seq<(Seq<char>, u64, u64, Seq<u8>)>) -> bool {
    forall|i: int|
        0 <= i < recs.len() - 1 ==> spec_chars_lt(#[trigger] recs[i].0, recs[i + 1].0)
}

/// Every record's filename and prefix fit the encoding's 32-bit length
/// fields (a four-byte character encoding at most).
pub open spec fn spec_recs_fit(recs: Seq<(Seq<char>, u64, u64, Seq<u8>)>) -> bool {
    forall|i: int|
        0 <= i < recs.len() ==> (#[trigger] recs[i]).0.len() < 0x40000000 && recs[i].3.len()
            < 0x100000000
}

/// Relies on serde_pickle's `value_to_vec` (default options) on a
/// dictionary value: encoding is a function of the records alone, cannot
/// fail when writing into memory, and `value_from_slice` decodes the output
/// back to an equal dictionary, which the codec's mirror reports as exactly
/// these records. The filenames must be strictly ascending (the dictionary
/// is sorted, so this keeps the stored order equal to the given order), and
/// names and prefixes must fit the encoding's 32-bit length fields.
#[verifier::external_body]
pub fn pickle_encode_index(recs: &Vec<(String, u64, u64, Vec<u8>)>) -> (r: Vec<u8>)
    requires
        spec_recs_sorted(recs_view(recs@)),
        spec_recs_fit(recs_view(recs@)),
    ensures
        r@ == pickle_index_bytes_of(recs_view(recs@)),
        pickle_decodes_to(r@, recs_view(recs@)),
{
    let dict: std::collections::BTreeMap<serde_pickle::HashableValue, serde_pickle::Value> = recs
        .iter()
        .map(|e| (
            serde_pickle::HashableValue::String(e.0.clone()),
            serde_pickle::Value::List(vec![serde_pickle::Value::Tuple(vec![
                serde_pickle::Value::I64(u64_to_i64(e.1)),
                serde_pickle::Value::I64(u64_to_i64(e.2)),
                serde_pickle::Value::Bytes(e.3.clone()),
            ])]),
        ))
        .collect();
    serde_pickle::value_to_vec(&serde_pickle::Value::Dict(dict), serde_pickle::SerOptions::new())
        .expect("serializing into memory cannot fail")
}

} // verus!
