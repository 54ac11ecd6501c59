//! Heuristic index recovery: when the structured decode fails, scan the
//! decompressed block byte by byte for filename-shaped tokens ending in a
//! known extension, then look behind each for two 32-bit little-endian
//! integer markers; unmask them with the key and accept the pair as
//! (offset, length) when it passes the sanity filter. The scan is a pure
//! function of the bytes and the key.
use vstd::prelude::*;

use crate::entry::{EntryV, RpaFileEntry};
use crate::strutil::string_from_ascii;

verus! {

/// The marker byte `'J'`, the structured encoding's 32-bit-literal tag.
pub const J_MARKER: u8 = 74;

/// A printable, non-space ASCII byte.
pub open spec fn spec_is_graphic(b: u8) -> bool {
    33 <= b <= 126
}

/// A byte a filename token may hold: printable and none of the separators
/// `" \ : * ? < > |`.
pub open spec fn spec_is_fname_byte(b: u8) -> bool {
    spec_is_graphic(b) && b != 34 && b != 92 && b != 58 && b != 42 && b != 63 && b != 60 && b != 62
        && b != 124
}

fn is_graphic(b: u8) -> (r: bool)
    ensures
        r == spec_is_graphic(b),
{
    33 <= b && b <= 126
}

fn is_fname_byte(b: u8) -> (r: bool)
    ensures
        r == spec_is_fname_byte(b),
{
    is_graphic(b) && b != 34 && b != 92 && b != 58 && b != 42 && b != 63 && b != 60 && b != 62
        && b != 124
}

/// Does `s` end with `suffix`?
pub open spec fn spec_ends_with(s: Seq<u8>, suffix: Seq<u8>) -> bool {
    suffix.len() <= s.len() && s.subrange(s.len() - suffix.len(), s.len() as int) == suffix
}

/// Does `s` end with the four given bytes?
fn ends4(s: &[u8], a: u8, b: u8, c: u8, d: u8) -> (r: bool)
    ensures
        r == spec_ends_with(s@, seq![a, b, c, d]),
{
    let n = s.len();
    if n < 4 {
        return false;
    }
    let r = s[n - 4] == a && s[n - 3] == b && s[n - 2] == c && s[n - 1] == d;
    proof {
        let suf = seq![a, b, c, d];
        let tail = s@.subrange(n - 4, n as int);
        if r {
            assert(tail =~= suf);
        } else {
            assert(tail[0] == s@[n - 4] && tail[1] == s@[n - 3] && tail[2] == s@[n - 2] && tail[3]
                == s@[n - 1]);
        }
    }
    r
}

/// Does `s` end with the five given bytes?
fn ends5(s: &[u8], a: u8, b: u8, c: u8, d: u8, e: u8) -> (r: bool)
    ensures
        r == spec_ends_with(s@, seq![a, b, c, d, e]),
{
    let n = s.len();
    if n < 5 {
        return false;
    }
    let r = s[n - 5] == a && s[n - 4] == b && s[n - 3] == c && s[n - 2] == d && s[n - 1] == e;
    proof {
        let suf = seq![a, b, c, d, e];
        let tail = s@.subrange(n - 5, n as int);
        if r {
            assert(tail =~= suf);
        } else {
            assert(tail[0] == s@[n - 5] && tail[1] == s@[n - 4] && tail[2] == s@[n - 3] && tail[3]
                == s@[n - 2] && tail[4] == s@[n - 1]);
        }
    }
    r
}

/// Whether `s` ends with one of the recognized extensions: the image, video,
/// audio and script formats the archives hold (`.png`, `.jpg`, `.jpeg`,
/// `.webp`, `.webm`, `.avi`, `.mp4`, `.mov`, `.ogg`, `.wav`, `.mp3`,
/// `.flac`, `.rpy`, `.rpyc`).
pub open spec fn spec_has_allowed_ext(s: Seq<u8>) -> bool {
    ||| spec_ends_with(s, seq![46u8, 112u8, 110u8, 103u8])  // .png
    ||| spec_ends_with(s, seq![46u8, 106u8, 112u8, 103u8])  // .jpg
    ||| spec_ends_with(s, seq![46u8, 106u8, 112u8, 101u8, 103u8])  // .jpeg
    ||| spec_ends_with(s, seq![46u8, 119u8, 101u8, 98u8, 112u8])  // .webp
    ||| spec_ends_with(s, seq![46u8, 119u8, 101u8, 98u8, 109u8])  // .webm
    ||| spec_ends_with(s, seq![46u8, 97u8, 118u8, 105u8])  // .avi
    ||| spec_ends_with(s, seq![46u8, 109u8, 112u8, 52u8])  // .mp4
    ||| spec_ends_with(s, seq![46u8, 109u8, 111u8, 118u8])  // .mov
    ||| spec_ends_with(s, seq![46u8, 111u8, 103u8, 103u8])  // .ogg
    ||| spec_ends_with(s, seq![46u8, 119u8, 97u8, 118u8])  // .wav
    ||| spec_ends_with(s, seq![46u8, 109u8, 112u8, 51u8])  // .mp3
    ||| spec_ends_with(s, seq![46u8, 102u8, 108u8, 97u8, 99u8])  // .flac
    ||| spec_ends_with(s, seq![46u8, 114u8, 112u8, 121u8])  // .rpy
    ||| spec_ends_with(s, seq![46u8, 114u8, 112u8, 121u8, 99u8])  // .rpyc
}

fn has_allowed_ext(s: &[u8]) -> (r: bool)
    ensures
        r == spec_has_allowed_ext(s@),
{
    ends4(s, 46, 112, 110, 103) || ends4(s, 46, 106, 112, 103) || ends5(s, 46, 106, 112, 101, 103)
        || ends5(s, 46, 119, 101, 98, 112) || ends5(s, 46, 119, 101, 98, 109) || ends4(
        s,
        46,
        97,
        118,
        105,
    ) || ends4(s, 46, 109, 112, 52) || ends4(s, 46, 109, 111, 118) || ends4(s, 46, 111, 103, 103)
        || ends4(s, 46, 119, 97, 118) || ends4(s, 46, 109, 112, 51) || ends5(
        s,
        46,
        102,
        108,
        97,
        99,
    ) || ends4(s, 46, 114, 112, 121) || ends5(s, 46, 114, 112, 121, 99)
}

/// A filename-shaped token: between 2 and 200 bytes, ending with a
/// recognized extension.
pub open spec fn spec_valid_filename(s: Seq<u8>) -> bool {
    2 <= s.len() <= 200 && spec_has_allowed_ext(s)
}

/// Whether a token is accepted as a filename by the heuristic scan.
pub fn is_valid_filename(s: &[u8]) -> (r: bool)
    ensures
        r == spec_valid_filename(s@),
{
    s.len() >= 2 && s.len() <= 200 && has_allowed_ext(s)
}

/// The 32-bit little-endian integer at position `p`.
pub open spec fn spec_le32(d: Seq<u8>, p: int) -> u32
    recommends
        0 <= p,
        p + 4 <= d.len(),
{
    ((d[p] as int) + 256 * (d[p + 1] as int) + 65536 * (d[p + 2] as int) + 16777216 * (d[p
        + 3] as int)) as u32
}

fn read_le32(d: &[u8], p: usize) -> (r: u32)
    requires
        p + 4 <= d@.len(),
    ensures
        r == spec_le32(d@, p as int),
{
    (d[p] as u32) + 256 * (d[p + 1] as u32) + 65536 * (d[p + 2] as u32) + 16777216 * (d[p
        + 3] as u32)
}

/// The sanity filter of recovered (offset, length) pairs: the offset lies
/// strictly between 50 and 2e9, the length strictly between 0 and 5e8, and
/// their sum below 2e9.
pub open spec fn spec_reasonable(offset: u64, length: u64) -> bool {
    offset > 50 && offset < 2000000000 && length > 0 && length < 500000000 && offset + length
        < 2000000000
}

/// Decide the sanity filter on a recovered pair.
pub fn is_reasonable_entry(offset: u64, length: u64) -> (r: bool)
    ensures
        r == spec_reasonable(offset, length),
{
    offset > 50 && offset < 2000000000 && length > 0 && length < 500000000 && offset + length
        < 2000000000
}

/// The first position at or after `p` holding a printable byte, or the
/// length when there is none.
pub open spec fn spec_graphic_start(d: Seq<u8>, p: int) -> int
    decreases d.len() - p,
{
    if p < 0 || p >= d.len() {
        d.len() as int
    } else if spec_is_graphic(d[p]) {
        p
    } else {
        spec_graphic_start(d, p + 1)
    }
}

/// The end of the filename-byte run starting at `p`.
pub open spec fn spec_fname_end(d: Seq<u8>, p: int) -> int
    decreases d.len() - p,
{
    if p < 0 || p >= d.len() {
        d.len() as int
    } else if spec_is_fname_byte(d[p]) {
        spec_fname_end(d, p + 1)
    } else {
        p
    }
}

pub proof fn lemma_graphic_start_bounds(d: Seq<u8>, p: int)
    requires
        0 <= p <= d.len(),
    ensures
        p <= spec_graphic_start(d, p) <= d.len(),
    decreases d.len() - p,
{
    if p < d.len() && !spec_is_graphic(d[p]) {
        lemma_graphic_start_bounds(d, p + 1);
    }
}

pub proof fn lemma_fname_end_bounds(d: Seq<u8>, p: int)
    requires
        0 <= p <= d.len(),
    ensures
        p <= spec_fname_end(d, p) <= d.len(),
    decreases d.len() - p,
{
    if p < d.len() && spec_is_fname_byte(d[p]) {
        lemma_fname_end_bounds(d, p + 1);
    }
}

/// What the filename extraction at `start` yields: the token bytes and the
/// position right after them, or nothing when no printable byte follows or
/// the token is not a valid filename.
pub open spec fn spec_extract_filename(d: Seq<u8>, start: int) -> Option<(Seq<u8>, int)> {
    let gs = spec_graphic_start(d, start);
    if gs >= d.len() {
        Option::None
    } else {
        let fe = spec_fname_end(d, gs);
        let tok = d.subrange(gs, fe);
        if spec_valid_filename(tok) {
            Some((tok, fe))
        } else {
            Option::None
        }
    }
}

/// Find the filename-shaped token at or after `start`: skip to the first
/// printable byte, take the run of filename bytes from there, and accept it
/// when it is a valid filename.
pub fn extract_filename_at_pos(data: &[u8], start: usize) -> (r: Option<(Vec<u8>, usize)>)
    requires
        start <= data@.len(),
    ensures
        match r {
            Some(t) => spec_extract_filename(data@, start as int) == Some((t.0@, t.1 as int)),
            None => spec_extract_filename(data@, start as int) is None,
        },
{
    let n = data.len();
    let mut pos: usize = start;
    while pos < n && !is_graphic(data[pos])
        invariant
            start <= pos <= n,
            n == data@.len(),
            spec_graphic_start(data@, start as int) == spec_graphic_start(data@, pos as int),
        decreases n - pos,
    {
        pos = pos + 1;
    }
    proof {
        assert(spec_graphic_start(data@, pos as int) == pos || pos == n);
    }
    if pos >= n {
        return None;
    }
    let gs = pos;
    while pos < n && is_fname_byte(data[pos])
        invariant
            gs <= pos <= n,
            n == data@.len(),
            spec_fname_end(data@, gs as int) == spec_fname_end(data@, pos as int),
        decreases n - pos,
    {
        pos = pos + 1;
    }
    proof {
        assert(spec_fname_end(data@, pos as int) == pos);
    }
    let tok = vstd::slice::slice_to_vec(vstd::slice::slice_subrange(data, gs, pos));
    if is_valid_filename(tok.as_slice()) {
        Some((tok, pos))
    } else {
        None
    }
}

/// The second marker search: the first position `q` in `[next, p + 15)`
/// holding the marker with four bytes after it, whose unmasked value forms
/// a reasonable pair with the first value; `None` when no such position
/// exists.
pub open spec fn spec_j_second(d: Seq<u8>, key: u32, p: int, next: int) -> Option<(u64, u64)>
    decreases p + 15 - next,
{
    if next < 0 || next >= p + 15 {
        Option::None
    } else if next + 4 < d.len() && d[next] == J_MARKER && spec_reasonable(
        ((spec_le32(d, p + 1) ^ key) as u64),
        ((spec_le32(d, next + 1) ^ key) as u64),
    ) {
        Some((((spec_le32(d, p + 1) ^ key) as u64), ((spec_le32(d, next + 1) ^ key) as u64)))
    } else {
        spec_j_second(d, key, p, next + 1)
    }
}

/// What the marker extraction at `p` yields: the first acceptable unmasked
/// (offset, length) pair read from a marker at `p` and a second marker
/// within 5 to 15 bytes of it.
pub open spec fn spec_j_at(d: Seq<u8>, key: u32, p: int) -> Option<(u64, u64)> {
    if 0 <= p && p + 9 < d.len() && d[p] == J_MARKER {
        spec_j_second(d, key, p, p + 5)
    } else {
        Option::None
    }
}

/// Read the two-marker pattern at `pos`: a marker byte, a 32-bit value, a
/// second marker 5 to 14 bytes further, a second 32-bit value; unmask both
/// with the key and accept the first pair passing the sanity filter.
pub fn extract_j_values_at(data: &[u8], key: u32, pos: usize) -> (r: Option<(u64, u64)>)
    ensures
        r == spec_j_at(data@, key, pos as int),
{
    let n = data.len();
    if n < 10 || pos > n - 10 || data[pos] != J_MARKER {
        return None;
    }
    let val1 = read_le32(data, pos + 1);
    let offset = ((val1 ^ key) as u64);
    let mut delta: usize = 5;
    while delta < 15
        invariant
            5 <= delta <= 15,
            n == data@.len(),
            pos + 9 < n,
            data@[pos as int] == J_MARKER,
            val1 == spec_le32(data@, pos + 1),
            offset == ((val1 ^ key) as u64),
            spec_j_second(data@, key, pos as int, pos + 5) == spec_j_second(
                data@,
                key,
                pos as int,
                pos + delta,
            ),
        decreases 15 - delta,
    {
        if delta + 4 < n - pos {
            let next = pos + delta;
            if data[next] == J_MARKER {
                let val2 = read_le32(data, next + 1);
                let length = ((val2 ^ key) as u64);
                if is_reasonable_entry(offset, length) {
                    return Some((offset, length));
                }
            }
        }
        proof {
            assert(spec_j_second(data@, key, pos as int, pos + delta) == spec_j_second(
                data@,
                key,
                pos as int,
                pos + delta + 1,
            ));
        }
        delta = delta + 1;
    }
    None
}

/// The first position in `[p, end)` where the marker pattern yields a pair:
/// what searching for entry data after a filename finds.
pub open spec fn spec_find_entry(d: Seq<u8>, key: u32, p: int, end: int) -> Option<(u64, u64)>
    decreases end - p,
{
    if p < 0 || p >= end {
        Option::None
    } else if p + 10 < d.len() && d[p] == J_MARKER && spec_j_at(d, key, p) is Some {
        spec_j_at(d, key, p)
    } else {
        spec_find_entry(d, key, p + 1, end)
    }
}

/// Search the up-to-100 bytes after a filename for the two-marker pattern
/// and return the first acceptable (offset, length) pair.
pub fn find_entry_data_after_filename(data: &[u8], key: u32, start: usize) -> (r: Option<
    (u64, u64),
>)
    requires
        start <= data@.len(),
    ensures
        r == spec_find_entry(data@, key, start as int, spec_search_end(data@, start as int)),
{
    let n = data.len();
    let search_end = if n - start < 100 {
        n
    } else {
        start + 100
    };
    let mut p: usize = start;
    while p < search_end
        invariant
            start <= p <= search_end,
            n == data@.len(),
            search_end == spec_search_end(data@, start as int),
            spec_find_entry(data@, key, start as int, search_end as int) == spec_find_entry(
                data@,
                key,
                p as int,
                search_end as int,
            ),
        decreases search_end - p,
    {
        if n - p > 10 && data[p] == J_MARKER {
            let got = extract_j_values_at(data, key, p);
            if let Some(pair) = got {
                return Some(pair);
            }
        }
        p = p + 1;
    }
    None
}

/// The end of the marker search window after a filename: 100 bytes, clamped
/// to the data's length.
pub open spec fn spec_search_end(d: Seq<u8>, start: int) -> int {
    if start + 100 <= d.len() {
        start + 100
    } else {
        d.len() as int
    }
}

/// An entry recovered by the scan.
pub open spec fn spec_recovered_entry(offset: u64, length: u64) -> EntryV {
    EntryV {
        offset,
        length,
        prefix: Seq::<u8>::empty(),
        data: Option::None,
        modified: false,
        to_delete: false,
    }
}

/// The entries the scan recovers from position `pos` on, in scan order:
/// at each position, extract a filename token; on a token with an
/// acceptable marker pair behind it, record the entry and jump 50 bytes
/// past the token; on a token without one, resume at the token's end; with
/// no token, advance one byte.
pub open spec fn spec_scan(d: Seq<u8>, key: u32, pos: int) -> Seq<(Seq<char>, EntryV)>
    decreases d.len() - pos,
    via spec_scan_dec
{
    if pos < 0 || pos >= d.len() {
        Seq::<(Seq<char>, EntryV)>::empty()
    } else {
        match spec_extract_filename(d, pos) {
            Option::None => spec_scan(d, key, pos + 1),
            Some(t) => {
                let name = t.0.map_values(|b: u8| b as char);
                let fe = t.1;
                match spec_find_entry(d, key, fe, spec_search_end(d, fe)) {
                    Some(pair) => seq![(name, spec_recovered_entry(pair.0, pair.1))] + spec_scan(
                        d,
                        key,
                        if fe + 50 <= d.len() {
                            fe + 50
                        } else {
                            d.len() as int
                        },
                    ),
                    Option::None => spec_scan(d, key, fe),
                }
            },
        }
    }
}

#[via_fn]
proof fn spec_scan_dec(d: Seq<u8>, key: u32, pos: int) {
    if 0 <= pos < d.len() {
        lemma_extract_bounds(d, pos);
    }
}

/// A successful filename extraction ends strictly after its start and no
/// later than the data's end, and its token has at least two bytes.
pub proof fn lemma_extract_bounds(d: Seq<u8>, start: int)
    requires
        0 <= start <= d.len(),
    ensures
        match spec_extract_filename(d, start) {
            Some(t) => start + 2 <= t.1 <= d.len() && t.0.len() >= 2,
            Option::None => true,
        },
{
    lemma_graphic_start_bounds(d, start);
    let gs = spec_graphic_start(d, start);
    if gs < d.len() {
        lemma_fname_end_bounds(d, gs);
        let fe = spec_fname_end(d, gs);
        let tok = d.subrange(gs, fe);
        if spec_valid_filename(tok) {
            assert(tok.len() >= 2);
            assert(fe - gs >= 2);
        }
    }
}

/// Scan the whole block for recoverable entries, in scan order. Every
/// recovered entry passes the sanity filter, carries an empty prefix and no
/// override, and is neither modified nor marked deleted.
pub fn parse_binary_dict(data: &[u8], key: u32) -> (r: Vec<(String, RpaFileEntry)>)
    ensures
        crate::index::pairs_view(r@) == spec_scan(data@, key, 0),
        forall|i: int|
            0 <= i < r@.len() ==> spec_reasonable(
                (#[trigger] r@[i]).1@.offset,
                r@[i].1@.length,
            ) && r@[i].1@.prefix.len() == 0 && r@[i].1@.data is None,
{
    let n = data.len();
    let mut out: Vec<(String, RpaFileEntry)> = Vec::new();
    let mut pos: usize = 0;
    proof {
        assert(crate::index::pairs_view(out@) =~= Seq::<(Seq<char>, EntryV)>::empty());
        lemma_scan_reasonable(data@, key, 0);
    }
    while pos < n
        invariant
            0 <= pos <= n,
            n == data@.len(),
            spec_scan(data@, key, 0) == crate::index::pairs_view(out@) + spec_scan(
                data@,
                key,
                pos as int,
            ),
            forall|i: int|
                0 <= i < out@.len() ==> spec_reasonable(
                    (#[trigger] out@[i]).1@.offset,
                    out@[i].1@.length,
                ) && out@[i].1@.prefix.len() == 0 && out@[i].1@.data is None,
        decreases n - pos,
    {
        match extract_filename_at_pos(data, pos) {
            Some(t) => {
                let (name_bytes, fe) = t;
                proof {
                    lemma_extract_bounds(data@, pos as int);
                    lemma_graphic_start_bounds(data@, pos as int);
                    let gs = spec_graphic_start(data@, pos as int);
                    assert(gs < data@.len());
                    lemma_run_is_fname(data@, gs);
                    lemma_fname_end_bounds(data@, gs);
                    let fe_s = spec_fname_end(data@, gs);
                    assert(name_bytes@ == data@.subrange(gs, fe_s));
                    assert forall|i: int| 0 <= i < name_bytes@.len() implies #[trigger] name_bytes@[i]
                        < 128 by {
                        assert(name_bytes@[i] == data@[gs + i]);
                        assert(spec_is_fname_byte(data@[gs + i]));
                    }
                }
                match find_entry_data_after_filename(data, key, fe) {
                    Some(pair) => {
                        let (offset, length) = pair;
                        let name = string_from_ascii(name_bytes);
                        let entry = RpaFileEntry::on_disk(offset, length, Vec::new());
                        let ghost old_out = out@;
                        out.push((name, entry));
                        proof {
                            assert(crate::index::pairs_view(out@) =~= crate::index::pairs_view(
                                old_out,
                            ) + seq![(name@, entry@)]);
                            lemma_j_second_reasonable(
                                data@,
                                key,
                                fe as int,
                                spec_search_end(data@, fe as int),
                            );
                        }
                        if n - fe < 50 {
                            pos = n;
                        } else {
                            pos = fe + 50;
                        }
                    },
                    None => {
                        pos = fe;
                    },
                }
            },
            None => {
                pos = pos + 1;
            },
        }
    }
    proof {
        assert(spec_scan(data@, key, pos as int) =~= Seq::<(Seq<char>, EntryV)>::empty());
        assert(crate::index::pairs_view(out@) =~= spec_scan(data@, key, 0));
    }
    out
}

/// Every byte of the filename run is a filename byte.
proof fn lemma_run_is_fname(d: Seq<u8>, gs: int)
    requires
        0 <= gs <= d.len(),
    ensures
        forall|i: int|
            gs <= i < spec_fname_end(d, gs) ==> spec_is_fname_byte(#[trigger] d[i]),
    decreases d.len() - gs,
{
    if gs < d.len() && spec_is_fname_byte(d[gs]) {
        lemma_run_is_fname(d, gs + 1);
    }
}

/// Any pair the second-marker search yields passes the sanity filter.
proof fn lemma_j_second_reasonable(d: Seq<u8>, key: u32, p: int, end: int)
    ensures
        match spec_find_entry(d, key, p, end) {
            Some(pair) => spec_reasonable(pair.0, pair.1),
            Option::None => true,
        },
    decreases end - p,
{
    if 0 <= p && p < end {
        if p + 10 < d.len() && d[p] == J_MARKER && spec_j_at(d, key, p) is Some {
            lemma_j_inner_reasonable(d, key, p, p + 5);
        } else {
            lemma_j_second_reasonable(d, key, p + 1, end);
        }
    }
}

proof fn lemma_j_inner_reasonable(d: Seq<u8>, key: u32, p: int, next: int)
    ensures
        match spec_j_second(d, key, p, next) {
            Some(pair) => spec_reasonable(pair.0, pair.1),
            Option::None => true,
        },
    decreases p + 15 - next,
{
    if 0 <= next && next < p + 15 {
        if !(next + 4 < d.len() && d[next] == J_MARKER && spec_reasonable(
            ((spec_le32(d, p + 1) ^ key) as u64),
            ((spec_le32(d, next + 1) ^ key) as u64),
        )) {
            lemma_j_inner_reasonable(d, key, p, next + 1);
        }
    }
}

/// All entries the scan yields pass the sanity filter, have an empty prefix
/// and no override, and are neither modified nor marked deleted: the
/// recovery never accepts a pair outside the bounds.
pub proof fn lemma_scan_reasonable(d: Seq<u8>, key: u32, pos: int)
    ensures
        forall|i: int|
            0 <= i < spec_scan(d, key, pos).len() ==> {
                let e = (#[trigger] spec_scan(d, key, pos)[i]).1;
                spec_reasonable(e.offset, e.length) && e.prefix.len() == 0 && e.data is None
                    && !e.modified && !e.to_delete
            },
    decreases d.len() - pos, 1int,
{
    if 0 <= pos < d.len() {
        match spec_extract_filename(d, pos) {
            Option::None => {
                lemma_scan_reasonable(d, key, pos + 1);
            },
            Some(t) => {
                proof_scan_bounds_helper(d, key, pos, t);
            },
        }
    }
}

proof fn proof_scan_bounds_helper(d: Seq<u8>, key: u32, pos: int, t: (Seq<u8>, int))
    requires
        0 <= pos < d.len(),
        spec_extract_filename(d, pos) == Some(t),
    ensures
        forall|i: int|
            0 <= i < spec_scan(d, key, pos).len() ==> {
                let e = (#[trigger] spec_scan(d, key, pos)[i]).1;
                spec_reasonable(e.offset, e.length) && e.prefix.len() == 0 && e.data is None
                    && !e.modified && !e.to_delete
            },
    decreases d.len() - pos, 0int,
{
    lemma_extract_bounds(d, pos);
    let fe = t.1;
    match spec_find_entry(d, key, fe, spec_search_end(d, fe)) {
        Some(pair) => {
            lemma_j_second_reasonable(d, key, fe, spec_search_end(d, fe));
            let nxt = if fe + 50 <= d.len() {
                fe + 50
            } else {
                d.len() as int
            };
            lemma_scan_reasonable(d, key, nxt);
        },
        Option::None => {
            lemma_scan_reasonable(d, key, fe);
        },
    }
}

} // verus!
