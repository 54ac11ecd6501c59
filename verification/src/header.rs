//! The archive header: the first line of the file, made of whitespace-
//! separated ASCII tokens. Token 0 is the version tag, token 1 the index
//! offset in hexadecimal, and the remaining tokens carry the key fragments
//! for keyed versions (starting one token later for version 3.2).
use vstd::prelude::*;

use crate::error::CodecError;
use crate::hexnum::{parse_hex_u32, parse_hex_u64, spec_hex_value, spec_is_hex_numeral, spec_pow16};
use crate::version::RpaVersion;

verus! {

/// The obfuscation key used for archives that carry no key fragments.
pub const DEFAULT_KEY: u32 = 0xDEADBEEF;

/// Line feed, the header terminator.
pub const LF: u8 = 10;

/// A parsed archive header.
#[derive(Debug, Clone, Copy, PartialEq, Eq, Structural)]
pub struct RpaHeader {
    /// Detected format version.
    pub version: RpaVersion,
    /// Byte position of the compressed index block.
    pub index_offset: u64,
    /// Derived obfuscation key.
    pub key: u32,
}

/// ASCII whitespace, the token separator of the header line.
pub open spec fn spec_is_ws(b: u8) -> bool {
    b == 9 || b == 10 || b == 11 || b == 12 || b == 13 || b == 32
}

fn is_ws(b: u8) -> (r: bool)
    ensures
        r == spec_is_ws(b),
{
    b == 9 || b == 10 || b == 11 || b == 12 || b == 13 || b == 32
}

/// Number of bytes before the first line feed (the whole sequence when none).
pub open spec fn spec_line_end(d: Seq<u8>) -> int
    decreases d.len(),
{
    if d.len() == 0 {
        0
    } else if d[0] == LF {
        0
    } else {
        1 + spec_line_end(d.drop_first())
    }
}

pub proof fn lemma_line_end_bounds(d: Seq<u8>)
    ensures
        0 <= spec_line_end(d) <= d.len(),
        forall|i: int| 0 <= i < spec_line_end(d) ==> #[trigger] d[i] != LF,
        spec_line_end(d) < d.len() ==> d[spec_line_end(d)] == LF,
    decreases d.len(),
{
    if d.len() > 0 && d[0] != LF {
        let t = d.drop_first();
        lemma_line_end_bounds(t);
        assert forall|i: int| 0 <= i < spec_line_end(d) implies #[trigger] d[i] != LF by {
            if i > 0 {
                assert(d[i] == t[i - 1]);
            }
        }
    }
}

/// Length of the leading run of non-whitespace bytes.
pub open spec fn spec_token_end(d: Seq<u8>) -> int
    decreases d.len(),
{
    if d.len() == 0 {
        0
    } else if spec_is_ws(d[0]) {
        0
    } else {
        1 + spec_token_end(d.drop_first())
    }
}

pub proof fn lemma_token_end_bounds(d: Seq<u8>)
    ensures
        0 <= spec_token_end(d) <= d.len(),
        forall|i: int| 0 <= i < spec_token_end(d) ==> !spec_is_ws(#[trigger] d[i]),
        spec_token_end(d) < d.len() ==> spec_is_ws(d[spec_token_end(d)]),
    decreases d.len(),
{
    if d.len() > 0 && !spec_is_ws(d[0]) {
        let t = d.drop_first();
        lemma_token_end_bounds(t);
        assert forall|i: int| 0 <= i < spec_token_end(d) implies !spec_is_ws(#[trigger] d[i]) by {
            if i > 0 {
                assert(d[i] == t[i - 1]);
            }
        }
    }
}

/// A position scanning every byte before it as non-whitespace and stopped at
/// whitespace or the end is exactly the token end.
pub proof fn lemma_token_end_is(d: Seq<u8>, k: int)
    requires
        0 <= k <= d.len(),
        forall|i: int| 0 <= i < k ==> !spec_is_ws(#[trigger] d[i]),
        k == d.len() || spec_is_ws(d[k]),
    ensures
        spec_token_end(d) == k,
    decreases d.len(),
{
    if d.len() == 0 {
    } else if spec_is_ws(d[0]) {
        assert(k == 0);
    } else {
        assert(k >= 1);
        let t = d.drop_first();
        assert(forall|i: int| 0 <= i < k - 1 ==> !spec_is_ws(#[trigger] t[i]));
        lemma_token_end_is(t, k - 1);
    }
}

/// The whitespace-separated tokens of a byte sequence, in order.
pub open spec fn spec_tokens(d: Seq<u8>) -> Seq<Seq<u8>>
    decreases d.len(),
    via spec_tokens_dec
{
    if d.len() == 0 {
        Seq::<Seq<u8>>::empty()
    } else if spec_is_ws(d[0]) {
        spec_tokens(d.drop_first())
    } else {
        let te = spec_token_end(d);
        seq![d.subrange(0, te)] + spec_tokens(d.subrange(te, d.len() as int))
    }
}

#[via_fn]
proof fn spec_tokens_dec(d: Seq<u8>) {
    lemma_token_end_bounds(d);
    if d.len() > 0 && !spec_is_ws(d[0]) {
        assert(spec_token_end(d) >= 1);
    }
}

/// View of a token list as a sequence of byte sequences.
pub open spec fn tokens_view(toks: Seq<Vec<u8>>) -> Seq<Seq<u8>> {
    toks.map_values(|t: Vec<u8>| t@)
}

/// Split a byte sequence into its whitespace-separated tokens.
pub fn split_ws(line: &[u8]) -> (toks: Vec<Vec<u8>>)
    ensures
        tokens_view(toks@) == spec_tokens(line@),
{
    let n = line.len();
    let mut toks: Vec<Vec<u8>> = Vec::new();
    let mut i: usize = 0;
    proof {
        assert(line@.subrange(0, n as int) =~= line@);
        assert(tokens_view(toks@) =~= Seq::<Seq<u8>>::empty());
    }
    while i < n
        invariant
            0 <= i <= n,
            n == line@.len(),
            spec_tokens(line@) == tokens_view(toks@) + spec_tokens(
                line@.subrange(i as int, n as int),
            ),
        decreases n - i,
    {
        if is_ws(line[i]) {
            proof {
                let rest = line@.subrange(i as int, n as int);
                assert(rest.drop_first() =~= line@.subrange(i + 1, n as int));
            }
            i = i + 1;
        } else {
            let start = i;
            while i < n && !is_ws(line[i])
                invariant
                    start <= i <= n,
                    n == line@.len(),
                    forall|m: int| start <= m < i ==> !spec_is_ws(#[trigger] line@[m]),
                decreases n - i,
            {
                i = i + 1;
            }
            let tok = vstd::slice::slice_to_vec(vstd::slice::slice_subrange(line, start, i));
            proof {
                let rest = line@.subrange(start as int, n as int);
                assert(forall|m: int|
                    0 <= m < i - start ==> !spec_is_ws(#[trigger] rest[m]));
                assert(i - start == rest.len() || spec_is_ws(rest[i - start]));
                lemma_token_end_is(rest, i - start);
                assert(rest.subrange(0, i - start) =~= line@.subrange(start as int, i as int));
                assert(rest.subrange(i - start, rest.len() as int) =~= line@.subrange(
                    i as int,
                    n as int,
                ));
                assert(spec_tokens(rest) == seq![tok@] + spec_tokens(
                    line@.subrange(i as int, n as int),
                ));
            }
            let ghost old_toks = toks@;
            toks.push(tok);
            proof {
                assert(tokens_view(toks@) =~= tokens_view(old_toks) + seq![tok@]);
            }
        }
        proof {
            assert(spec_tokens(line@) =~= tokens_view(toks@) + spec_tokens(
                line@.subrange(i as int, n as int),
            ));
        }
    }
    proof {
        assert(line@.subrange(i as int, n as int) =~= Seq::<u8>::empty());
        assert(spec_tokens(Seq::<u8>::empty()) =~= Seq::<Seq<u8>>::empty());
        assert(tokens_view(toks@) =~= spec_tokens(line@));
    }
    toks
}

/// Does `d` start with the given prefix?
pub open spec fn spec_starts_with(d: Seq<u8>, p: Seq<u8>) -> bool {
    d.len() >= p.len() && forall|i: int| 0 <= i < p.len() ==> d[i] == p[i]
}

/// The tag bytes `"RPA-3.2 "`.
pub open spec fn spec_tag_3_2() -> Seq<u8> {
    seq![82u8, 80u8, 65u8, 45u8, 51u8, 46u8, 50u8, 32u8]
}

/// The tag bytes `"RPA-3.0 "`.
pub open spec fn spec_tag_3_0() -> Seq<u8> {
    seq![82u8, 80u8, 65u8, 45u8, 51u8, 46u8, 48u8, 32u8]
}

/// The tag bytes `"RPA-2"`.
pub open spec fn spec_tag_2() -> Seq<u8> {
    seq![82u8, 80u8, 65u8, 45u8, 50u8]
}

/// Version classification of the file's textual prefix: the first 32 bytes
/// must exist and begin with one of the recognized tags.
pub open spec fn spec_get_version(d: Seq<u8>) -> Option<RpaVersion> {
    if d.len() < 32 {
        Option::None
    } else if spec_starts_with(d, spec_tag_3_2()) {
        Option::Some(RpaVersion::V3_2)
    } else if spec_starts_with(d, spec_tag_3_0()) {
        Option::Some(RpaVersion::V3_0)
    } else if spec_starts_with(d, spec_tag_2()) {
        Option::Some(RpaVersion::V2_0)
    } else {
        Option::None
    }
}

/// Classify the archive's format version from its leading bytes.
pub fn get_version(data: &[u8]) -> (r: Result<RpaVersion, CodecError>)
    ensures
        match r {
            Ok(v) => spec_get_version(data@) == Some(v),
            Err(e) => spec_get_version(data@) is None && e == CodecError::UnsupportedFormat,
        },
{
    if data.len() < 32 {
        return Err(CodecError::UnsupportedFormat);
    }
    if data[0] == 82 && data[1] == 80 && data[2] == 65 && data[3] == 45 {
        if data[4] == 51 && data[5] == 46 && data[7] == 32 {
            if data[6] == 50 {
                return Ok(RpaVersion::V3_2);
            }
            if data[6] == 48 {
                return Ok(RpaVersion::V3_0);
            }
        }
        if data[4] == 50 {
            return Ok(RpaVersion::V2_0);
        }
    }
    Err(CodecError::UnsupportedFormat)
}

/// XOR-fold of key fragments; the empty fold is zero.
pub open spec fn spec_xor_fold(frags: Seq<u32>) -> u32
    decreases frags.len(),
{
    if frags.len() == 0 {
        0u32
    } else {
        spec_xor_fold(frags.drop_last()) ^ frags.last()
    }
}

/// Removing one fragment from the fold and XORing it back restores the fold.
proof fn lemma_xor_fold_remove(s: Seq<u32>, i: int)
    requires
        0 <= i < s.len(),
    ensures
        spec_xor_fold(s) == spec_xor_fold(s.remove(i)) ^ s[i],
    decreases s.len(),
{
    if i == s.len() - 1 {
        assert(s.remove(i) =~= s.drop_last());
    } else {
        let t = s.drop_last();
        let x = s.last();
        lemma_xor_fold_remove(t, i);
        assert(s.remove(i) =~= t.remove(i).push(x));
        assert(s.remove(i).drop_last() =~= t.remove(i));
        let a = spec_xor_fold(t.remove(i));
        let b = t[i];
        assert((a ^ b) ^ x == (a ^ x) ^ b) by (bit_vector);
    }
}

/// Key derivation is order-independent: folding the same fragments in any
/// permutation (any reordering with the same multiset of fragments) yields
/// the same key.
pub proof fn lemma_xor_fold_permutation(s1: Seq<u32>, s2: Seq<u32>)
    requires
        s1.to_multiset() == s2.to_multiset(),
    ensures
        spec_xor_fold(s1) == spec_xor_fold(s2),
    decreases s1.len(),
{
    broadcast use vstd::seq_lib::group_to_multiset_ensures;

    if s1.len() == 0 {
        assert(s2.to_multiset().len() == 0);
        assert(s2.len() == 0);
    } else {
        let x = s1.last();
        assert(s1.to_multiset().count(x) > 0);
        assert(s2.to_multiset().count(x) > 0);
        assert(s2.contains(x));
        let j = choose|j: int| 0 <= j < s2.len() && s2[j] == x;
        assert(s1.drop_last() =~= s1.remove(s1.len() - 1));
        assert(s1.remove(s1.len() - 1).to_multiset() =~= s1.to_multiset().remove(x));
        assert(s2.remove(j).to_multiset() =~= s2.to_multiset().remove(x));
        lemma_xor_fold_permutation(s1.drop_last(), s2.remove(j));
        lemma_xor_fold_remove(s2, j);
    }
}

/// The key-fragment tokens of a header line for a version: every token from
/// the version's key-start position on.
pub open spec fn spec_frag_tokens(toks: Seq<Seq<u8>>, ver: RpaVersion) -> Seq<Seq<u8>> {
    toks.subrange(ver.spec_key_start() as int, toks.len() as int)
}

/// Every fragment token is a hexadecimal numeral fitting in 32 bits.
pub open spec fn spec_frags_valid(frags: Seq<Seq<u8>>) -> bool {
    forall|i: int|
        0 <= i < frags.len() ==> spec_is_hex_numeral(#[trigger] frags[i]) && spec_hex_value(
            frags[i],
        ) <= u32::MAX
}

/// The numeric values of fragment tokens.
pub open spec fn spec_frag_values(frags: Seq<Seq<u8>>) -> Seq<u32> {
    frags.map_values(|f: Seq<u8>| (spec_hex_value(f) as u32))
}

/// What parsing the header of `d` yields: the detected version, the index
/// offset read from token 1, and the key (XOR-fold of the fragment tokens
/// for keyed versions, the fixed default otherwise).
pub open spec fn spec_parse_header(d: Seq<u8>) -> Result<RpaHeader, CodecError> {
    match spec_get_version(d) {
        Option::None => Result::Err(CodecError::UnsupportedFormat),
        Option::Some(ver) => {
            let toks = spec_tokens(d.subrange(0, spec_line_end(d)));
            if toks.len() < 2 {
                Result::Err(CodecError::UnsupportedFormat)
            } else if !(spec_is_hex_numeral(toks[1]) && spec_hex_value(toks[1]) <= u64::MAX) {
                Result::Err(CodecError::UnsupportedFormat)
            } else if !ver.spec_is_keyed() {
                Result::Ok(
                    (RpaHeader {
                        version: ver,
                        index_offset: spec_hex_value(toks[1]) as u64,
                        key: DEFAULT_KEY,
                    }),
                )
            } else if toks.len() < ver.spec_key_start() {
                Result::Err(CodecError::UnsupportedFormat)
            } else if !spec_frags_valid(spec_frag_tokens(toks, ver)) {
                Result::Err(CodecError::KeyParseError)
            } else {
                Result::Ok(
                    (RpaHeader {
                        version: ver,
                        index_offset: spec_hex_value(toks[1]) as u64,
                        key: spec_xor_fold(spec_frag_values(spec_frag_tokens(toks, ver))),
                    }),
                )
            }
        },
    }
}

/// Find the end of the header line: the index of the first line feed, or the
/// whole length when none occurs.
pub fn find_line_end(data: &[u8]) -> (r: usize)
    ensures
        r == spec_line_end(data@),
{
    let n = data.len();
    let mut i: usize = 0;
    while i < n && data[i] != LF
        invariant
            0 <= i <= n,
            n == data@.len(),
            forall|m: int| 0 <= m < i ==> #[trigger] data@[m] != LF,
        decreases n - i,
    {
        i = i + 1;
    }
    proof {
        lemma_line_end_is(data@, i as int);
    }
    i
}

proof fn lemma_line_end_is(d: Seq<u8>, k: int)
    requires
        0 <= k <= d.len(),
        forall|i: int| 0 <= i < k ==> #[trigger] d[i] != LF,
        k == d.len() || d[k] == LF,
    ensures
        spec_line_end(d) == k,
    decreases d.len(),
{
    if d.len() == 0 {
    } else if d[0] == LF {
        assert(k == 0);
    } else {
        assert(k >= 1);
        let t = d.drop_first();
        assert(forall|i: int| 0 <= i < k - 1 ==> #[trigger] t[i] != LF);
        lemma_line_end_is(t, k - 1);
    }
}

/// A hexadecimal digit is never whitespace.
proof fn lemma_hex_digit_not_ws(b: u8)
    requires
        crate::hexnum::spec_is_hex_digit(b),
    ensures
        !spec_is_ws(b),
        b != LF,
{
}

/// Splitting a sequence that starts with a non-whitespace word followed by
/// whitespace (or the end) yields that word and then the rest's tokens.
proof fn lemma_tokens_word(d: Seq<u8>, k: int)
    requires
        0 < k <= d.len(),
        forall|i: int| 0 <= i < k ==> !spec_is_ws(#[trigger] d[i]),
        k == d.len() || spec_is_ws(d[k]),
    ensures
        spec_tokens(d) == seq![d.subrange(0, k)] + spec_tokens(d.subrange(k, d.len() as int)),
{
    lemma_token_end_is(d, k);
}

/// A leading whitespace byte is skipped by tokenization.
proof fn lemma_tokens_skip(d: Seq<u8>)
    requires
        d.len() > 0,
        spec_is_ws(d[0]),
    ensures
        spec_tokens(d) == spec_tokens(d.subrange(1, d.len() as int)),
{
    assert(d.drop_first() =~= d.subrange(1, d.len() as int));
}

/// Reparsing a rebuilt 3.0-style header recovers the version, the index
/// offset and the key: the header line a save writes, followed by the
/// zero padding and any further bytes, parses back to exactly what was
/// written.
pub proof fn lemma_header_reparse_3_0(index_offset: u64, key: u32, tail: Seq<u8>)
    ensures
        spec_parse_header(
            spec_tag_3_0() + crate::hexnum::spec_hex_bytes(index_offset as nat, 16) + seq![32u8]
                + crate::hexnum::spec_hex_bytes(key as nat, 8) + seq![10u8] + tail,
        ) == Result::<RpaHeader, CodecError>::Ok(
            (RpaHeader { version: RpaVersion::V3_0, index_offset, key }),
        ),
{
    let hex_off = crate::hexnum::spec_hex_bytes(index_offset as nat, 16);
    let hex_key = crate::hexnum::spec_hex_bytes(key as nat, 8);
    let d = spec_tag_3_0() + hex_off + seq![32u8] + hex_key + seq![10u8] + tail;
    crate::hexnum::lemma_hex_bytes_wf(index_offset as nat, 16);
    crate::hexnum::lemma_hex_bytes_wf(key as nat, 8);
    assert(d.len() == 34 + tail.len());

    // Version detection: the first 32 bytes exist and begin with the tag.
    assert forall|i: int| 0 <= i < spec_tag_3_0().len() implies d[i] == spec_tag_3_0()[i] by {}
    assert(spec_starts_with(d, spec_tag_3_0()));
    assert(!spec_starts_with(d, spec_tag_3_2())) by {
        assert(d[6] == 48 && spec_tag_3_2()[6] == 50);
    }
    assert(spec_get_version(d) == Some(RpaVersion::V3_0));

    // The line ends at the line feed that closes the header, position 33.
    assert forall|i: int| 0 <= i < 33 implies #[trigger] d[i] != LF by {
        if 8 <= i < 24 {
            assert(d[i] == hex_off[i - 8]);
            lemma_hex_digit_not_ws(hex_off[i - 8]);
        } else if 25 <= i < 33 {
            assert(d[i] == hex_key[i - 25]);
            lemma_hex_digit_not_ws(hex_key[i - 25]);
        }
    }
    assert(d[33] == 10);
    lemma_line_end_is(d, 33);
    let line = d.subrange(0, 33);

    // The line splits into the tag word, the offset numeral and the key
    // numeral.
    assert forall|i: int| 0 <= i < 7 implies !spec_is_ws(#[trigger] line[i]) by {}
    assert(spec_is_ws(line[7]));
    lemma_tokens_word(line, 7);
    let rest1 = line.subrange(7, 33);
    assert(spec_is_ws(rest1[0]));
    lemma_tokens_skip(rest1);
    let rest2 = rest1.subrange(1, 26);
    assert(rest2 =~= line.subrange(8, 33));
    assert forall|i: int| 0 <= i < 16 implies !spec_is_ws(#[trigger] rest2[i]) by {
        assert(rest2[i] == hex_off[i]);
        lemma_hex_digit_not_ws(hex_off[i]);
    }
    assert(spec_is_ws(rest2[16]));
    lemma_tokens_word(rest2, 16);
    assert(rest2.subrange(0, 16) =~= hex_off);
    let rest3 = rest2.subrange(16, 25);
    assert(spec_is_ws(rest3[0]));
    lemma_tokens_skip(rest3);
    let rest4 = rest3.subrange(1, 9);
    assert(rest4 =~= hex_key);
    assert forall|i: int| 0 <= i < 8 implies !spec_is_ws(#[trigger] rest4[i]) by {
        assert(rest4[i] == hex_key[i]);
        lemma_hex_digit_not_ws(hex_key[i]);
    }
    lemma_tokens_word(rest4, 8);
    assert(rest4.subrange(0, 8) =~= hex_key);
    assert(rest4.subrange(8, 8) =~= Seq::<u8>::empty());
    assert(spec_tokens(Seq::<u8>::empty()) =~= Seq::<Seq<u8>>::empty());
    let toks = spec_tokens(line);
    assert(toks =~= seq![line.subrange(0, 7), hex_off, hex_key]);

    // The offset token parses back to the offset, the key token to the key.
    assert(crate::hexnum::spec_pow16(16) == 0x10000000000000000) by {
        reveal_with_fuel(spec_pow16, 17);
    }
    assert(crate::hexnum::spec_pow16(8) == 0x100000000) by {
        reveal_with_fuel(spec_pow16, 9);
    }
    crate::hexnum::lemma_hex_roundtrip(index_offset as nat, 16);
    crate::hexnum::lemma_hex_roundtrip(key as nat, 8);
    assert(toks[1] == hex_off);
    assert(spec_is_hex_numeral(toks[1]) && spec_hex_value(toks[1]) == index_offset);

    // Key derivation folds the single fragment into exactly the key.
    let frags = spec_frag_tokens(toks, RpaVersion::V3_0);
    assert(frags =~= seq![hex_key]);
    assert(spec_frags_valid(frags)) by {
        assert(frags[0] == hex_key);
    }
    let vals = spec_frag_values(frags);
    assert(vals =~= seq![key]);
    assert(vals.len() == 1 && vals.last() == key);
    assert(vals.drop_last() =~= Seq::<u32>::empty());
    assert(spec_xor_fold(vals.drop_last()) == 0u32);
    assert(spec_xor_fold(vals) == spec_xor_fold(vals.drop_last()) ^ vals.last());
    assert(0u32 ^ key == key) by (bit_vector);
}

/// Parse the header of the archive bytes: classify the version, read the
/// index offset, and derive the obfuscation key. The read errors are exactly
/// those of `spec_parse_header`: an unrecognized or structurally unusable
/// header is `UnsupportedFormat`, a malformed key fragment `KeyParseError`.
#[verifier::loop_isolation(false)]
pub fn parse_header(data: &[u8]) -> (r: Result<RpaHeader, CodecError>)
    ensures
        r == spec_parse_header(data@),
{
    let version = match get_version(data) {
        Ok(v) => v,
        Err(e) => {
            return Err(e);
        },
    };
    let line_end = find_line_end(data);
    proof {
        lemma_line_end_bounds(data@);
    }
    let line = vstd::slice::slice_subrange(data, 0, line_end);
    let toks = split_ws(line);
    if toks.len() < 2 {
        return Err(CodecError::UnsupportedFormat);
    }
    proof {
        assert(tokens_view(toks@)[1] == toks@[1]@);
    }
    let index_offset = match parse_hex_u64(toks[1].as_slice()) {
        Some(v) => v,
        None => {
            return Err(CodecError::UnsupportedFormat);
        },
    };
    if !version.is_keyed() {
        return Ok(RpaHeader { version, index_offset, key: DEFAULT_KEY });
    }
    let key_start = version.key_start();
    if toks.len() < key_start {
        return Err(CodecError::UnsupportedFormat);
    }
    let ghost frags = spec_frag_tokens(tokens_view(toks@), version);
    let mut key: u32 = 0;
    let mut i: usize = key_start;
    while i < toks.len()
        invariant
            key_start <= i <= toks@.len(),
            frags == spec_frag_tokens(tokens_view(toks@), version),
            key_start == version.spec_key_start(),
            frags.len() == toks@.len() - key_start,
            forall|j: int| key_start <= j < toks@.len() ==> frags[j - key_start] == #[trigger] toks@[j]@,
            spec_frags_valid(frags.subrange(0, i - key_start)),
            key == spec_xor_fold(spec_frag_values(frags.subrange(0, i - key_start))),
        decreases toks@.len() - i,
    {
        let subkey = match parse_hex_u32(toks[i].as_slice()) {
            Some(v) => v,
            None => {
                proof {
                    let k = i - key_start;
                    assert(frags[k] == toks@[i as int]@);
                    assert(!(spec_is_hex_numeral(frags[k]) && spec_hex_value(frags[k])
                        <= u32::MAX));
                    assert(!spec_frags_valid(frags));
                }
                return Err(CodecError::KeyParseError);
            },
        };
        proof {
            let pre = frags.subrange(0, i - key_start);
            let post = frags.subrange(0, i + 1 - key_start);
            assert(post.drop_last() =~= pre);
            assert(spec_frag_values(post).drop_last() =~= spec_frag_values(pre));
            assert(spec_frag_values(post).last() == subkey);
        }
        key = key ^ subkey;
        i = i + 1;
    }
    proof {
        assert(frags.subrange(0, toks@.len() - key_start) =~= frags);
    }
    Ok(RpaHeader { version, index_offset, key })
}

} // verus!
