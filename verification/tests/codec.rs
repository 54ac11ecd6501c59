use unrpa::error::CodecError;
use unrpa::header::{find_line_end, get_version, parse_header, split_ws};
use unrpa::heuristic::{
    extract_j_values_at, find_entry_data_after_filename, is_reasonable_entry, is_valid_filename,
    parse_binary_dict,
};
use unrpa::hexnum::{format_hex, parse_hex_u32, parse_hex_u64};
use unrpa::index::{decode_index, decode_pair, DecodedPair, SkipReason};
use unrpa::mask::{i64_to_u64, mask_value, u64_to_i64};
use unrpa::pickle::{pickle_parse, PickleKey, PickleNode};
use unrpa::strutil::{sort_names, str_contains, str_eq, str_lt, string_from_ascii, to_lowercase};
use unrpa::version::RpaVersion;
use unrpa::zlib::{zlib_compress, zlib_decompress};

fn padded_header(line: &str) -> Vec<u8> {
    let mut v = line.as_bytes().to_vec();
    while v.len() < 64 {
        v.push(0);
    }
    v
}

#[test]
fn header_scenario_3_0() {
    let data = padded_header("RPA-3.0 0000000000000100 DEADBEEF\n");
    let h = parse_header(&data).unwrap();
    assert_eq!(h.version, RpaVersion::V3_0);
    assert_eq!(h.index_offset, 0x100);
    assert_eq!(h.key, 0xDEADBEEF);
}

#[test]
fn header_version_detection() {
    let d32 = padded_header("RPA-3.2 0000000000000100 00000000 DEADBEEF\n");
    assert_eq!(get_version(&d32).unwrap(), RpaVersion::V3_2);
    let d30 = padded_header("RPA-3.0 0000000000000100 DEADBEEF\n");
    assert_eq!(get_version(&d30).unwrap(), RpaVersion::V3_0);
    let d20 = padded_header("RPA-2.0 0000000000000100\n");
    assert_eq!(get_version(&d20).unwrap(), RpaVersion::V2_0);
    let bad = padded_header("ZIP-9.9 0000000000000100\n");
    assert_eq!(get_version(&bad), Err(CodecError::UnsupportedFormat));
    // Fewer than 32 bytes cannot carry a classifiable header.
    assert_eq!(get_version(b"RPA-3.0 "), Err(CodecError::UnsupportedFormat));
}

#[test]
fn header_3_2_skips_offset_record_token() {
    // For 3.2 the first token after the offset is part of the offset record
    // and is not a key fragment.
    let data = padded_header("RPA-3.2 0000000000000100 11111111 0000BEEF 0000DEAD\n");
    let h = parse_header(&data).unwrap();
    assert_eq!(h.version, RpaVersion::V3_2);
    assert_eq!(h.key, 0x0000BEEF ^ 0x0000DEAD);
}

#[test]
fn header_2_0_uses_default_key() {
    let data = padded_header("RPA-2.0 0000000000000034\n");
    let h = parse_header(&data).unwrap();
    assert_eq!(h.version, RpaVersion::V2_0);
    assert_eq!(h.key, 0xDEADBEEF);
    assert_eq!(h.index_offset, 0x34);
}

#[test]
fn header_key_fragment_permutation_same_key() {
    let a = parse_header(&padded_header("RPA-3.2 0000000000000100 00 0001 0230 4500\n"))
        .unwrap();
    let b = parse_header(&padded_header("RPA-3.2 0000000000000100 00 4500 0001 0230\n"))
        .unwrap();
    assert_eq!(a.key, b.key);
}

#[test]
fn header_malformed_key_fragment() {
    let data = padded_header("RPA-3.0 0000000000000100 XYZ\n");
    assert_eq!(parse_header(&data), Err(CodecError::KeyParseError));
    // A fragment too large for 32 bits is malformed too.
    let data = padded_header("RPA-3.0 0000000000000100 100000000\n");
    assert_eq!(parse_header(&data), Err(CodecError::KeyParseError));
}

#[test]
fn header_line_and_tokens() {
    let data = b"RPA-3.0 ff 1\nrest".to_vec();
    assert_eq!(find_line_end(&data), 12);
    let toks = split_ws(&data[..12]);
    assert_eq!(toks.len(), 3);
    assert_eq!(toks[0], b"RPA-3.0".to_vec());
    assert_eq!(toks[1], b"ff".to_vec());
    assert_eq!(toks[2], b"1".to_vec());
}

#[test]
fn hex_parsing_and_formatting() {
    assert_eq!(parse_hex_u64(b"ff"), Some(255));
    assert_eq!(parse_hex_u64(b"DEADBEEF"), Some(0xDEADBEEF));
    assert_eq!(parse_hex_u64(b""), None);
    assert_eq!(parse_hex_u64(b"12g4"), None);
    assert_eq!(parse_hex_u64(b"ffffffffffffffff"), Some(u64::MAX));
    assert_eq!(parse_hex_u64(b"10000000000000000"), None);
    assert_eq!(parse_hex_u32(b"deadbeef"), Some(0xDEADBEEF));
    assert_eq!(parse_hex_u32(b"100000000"), None);
    assert_eq!(format_hex(0x34, 16), b"0000000000000034".to_vec());
    assert_eq!(format_hex(0xDEADBEEF, 8), b"deadbeef".to_vec());
    assert_eq!(parse_hex_u64(&format_hex(0x1234_5678_9abc_def0, 16)), Some(0x1234_5678_9abc_def0));
}

#[test]
fn mask_is_involution() {
    let key = 0xDEADBEEF;
    let v = 0x123456789abcdef0u64;
    assert_eq!(mask_value(mask_value(v, key), key), v);
    // The scenario values: unmasking the encoded pair gives the logical pair.
    assert_eq!(mask_value(0x123 ^ (key as u64), key), 0x123);
    assert_eq!(mask_value(0x10 ^ (key as u64), key), 0x10);
}

#[test]
fn signed_unsigned_reinterpretation() {
    assert_eq!(i64_to_u64(-1), u64::MAX);
    assert_eq!(u64_to_i64(u64::MAX), -1);
    assert_eq!(i64_to_u64(7), 7);
    assert_eq!(u64_to_i64(i64_to_u64(-12345)), -12345);
}

#[test]
fn index_entry_scenario_decodes_unmasked() {
    let key = 0xDEADBEEFu32;
    let k64 = key as u64;
    let pair_key = PickleKey::Str(String::from("script.rpy"));
    let pair_val = PickleNode::List(vec![PickleNode::Tuple(vec![
        PickleNode::I64(u64_to_i64(0x123 ^ k64)),
        PickleNode::I64(u64_to_i64(0x10 ^ k64)),
        PickleNode::Bytes(Vec::new()),
    ])]);
    match decode_pair(&pair_key, &pair_val, key) {
        DecodedPair::Accepted(name, e) => {
            assert_eq!(name, "script.rpy");
            assert_eq!(e.offset, 0x123);
            assert_eq!(e.length, 0x10);
            assert_eq!(e.prefix, Vec::<u8>::new());
            assert!(e.data.is_none());
            assert!(!e.modified);
            assert!(!e.to_delete);
        },
        DecodedPair::Skipped(_) => panic!("entry of the exact shape must be accepted"),
    }
}

#[test]
fn index_skip_reasons() {
    let key = 0u32;
    let k = PickleKey::Str(String::from("a.png"));
    let skip = |k: &PickleKey, v: &PickleNode| match decode_pair(k, v, key) {
        DecodedPair::Accepted(_, _) => panic!("must be skipped"),
        DecodedPair::Skipped(why) => why,
    };
    assert_eq!(skip(&PickleKey::Other, &PickleNode::I64(0)), SkipReason::NonStringKey);
    assert_eq!(skip(&k, &PickleNode::I64(0)), SkipReason::NotAList);
    assert_eq!(skip(&k, &PickleNode::List(vec![])), SkipReason::WrongListLength);
    assert_eq!(
        skip(&k, &PickleNode::List(vec![PickleNode::I64(0)])),
        SkipReason::NotATuple
    );
    assert_eq!(
        skip(&k, &PickleNode::List(vec![PickleNode::Tuple(vec![PickleNode::I64(0)])])),
        SkipReason::WrongTupleArity
    );
    assert_eq!(
        skip(
            &k,
            &PickleNode::List(vec![PickleNode::Tuple(vec![
                PickleNode::I64(0),
                PickleNode::Str(String::from("x")),
                PickleNode::Bytes(vec![]),
            ])])
        ),
        SkipReason::WrongValueTypes
    );
}

#[test]
fn index_root_must_be_a_mapping() {
    assert_eq!(
        decode_index(&PickleNode::I64(3), 0).unwrap_err(),
        CodecError::MalformedIndex
    );
    let dict = PickleNode::Dict(vec![(
        PickleKey::Str(String::from("a.png")),
        PickleNode::List(vec![PickleNode::Tuple(vec![
            PickleNode::I64(0x100),
            PickleNode::I64(4),
            PickleNode::Bytes(vec![1, 2]),
        ])]),
    )]);
    let entries = decode_index(&dict, 0).unwrap();
    assert_eq!(entries.len(), 1);
    assert_eq!(entries[0].0, "a.png");
    assert_eq!(entries[0].1.offset, 0x100);
    assert_eq!(entries[0].1.length, 4);
    assert_eq!(entries[0].1.prefix, vec![1, 2]);
}

#[test]
fn pickle_parse_mirrors_the_decoded_tree() {
    // A pickled {"a.png": [(100, 4, b"")]} parses to the mirrored node.
    let mut dict = std::collections::BTreeMap::new();
    dict.insert(
        serde_pickle::HashableValue::String(String::from("a.png")),
        serde_pickle::Value::List(vec![serde_pickle::Value::Tuple(vec![
            serde_pickle::Value::I64(100),
            serde_pickle::Value::I64(4),
            serde_pickle::Value::Bytes(Vec::new()),
        ])]),
    );
    let raw = serde_pickle::value_to_vec(
        &serde_pickle::Value::Dict(dict),
        serde_pickle::SerOptions::new(),
    )
    .unwrap();
    let node = pickle_parse(&raw).expect("well-formed encoding must parse");
    let entries = decode_index(&node, 0).unwrap();
    assert_eq!(entries.len(), 1);
    assert_eq!(entries[0].0, "a.png");
    assert_eq!(entries[0].1.offset, 100);
    assert_eq!(entries[0].1.length, 4);
    assert!(pickle_parse(b"not a pickle at all").is_none());
}

#[test]
fn zlib_roundtrip() {
    let data = b"the archive index bytes".to_vec();
    let comp = zlib_compress(&data);
    assert_ne!(comp, data);
    assert_eq!(zlib_decompress(&comp), Some(data));
    assert_eq!(zlib_decompress(b"definitely not zlib"), None);
}

#[test]
fn heuristic_sanity_filter_bounds() {
    assert!(is_reasonable_entry(51, 1));
    assert!(!is_reasonable_entry(50, 1));
    assert!(!is_reasonable_entry(51, 0));
    assert!(!is_reasonable_entry(2_000_000_000, 1));
    assert!(!is_reasonable_entry(51, 500_000_000));
    assert!(!is_reasonable_entry(1_900_000_000, 400_000_000));
    assert!(is_reasonable_entry(1_500_000_000, 400_000_000));
}

#[test]
fn heuristic_filename_validation() {
    assert!(is_valid_filename(b"bg.png"));
    assert!(is_valid_filename(b"a/b/c.rpyc"));
    assert!(!is_valid_filename(b"x"));
    assert!(!is_valid_filename(b"name.exe"));
    let long = vec![b'a'; 200];
    let mut long_name = long.clone();
    long_name.extend_from_slice(b".png");
    assert!(!is_valid_filename(&long_name));
}

#[test]
fn heuristic_marker_extraction() {
    let key = 0u32;
    // filename, separator, marker J + LE32(100), second marker J + LE32(10)
    let mut data = b"bg.png\0".to_vec();
    data.push(b'J');
    data.extend_from_slice(&100u32.to_le_bytes());
    data.push(b'J');
    data.extend_from_slice(&10u32.to_le_bytes());
    while data.len() < 40 {
        data.push(0);
    }
    assert_eq!(extract_j_values_at(&data, key, 7), Some((100, 10)));
    assert_eq!(find_entry_data_after_filename(&data, key, 6), Some((100, 10)));
    let entries = parse_binary_dict(&data, key);
    assert_eq!(entries.len(), 1);
    assert_eq!(entries[0].0, "bg.png");
    assert_eq!(entries[0].1.offset, 100);
    assert_eq!(entries[0].1.length, 10);
    assert_eq!(entries[0].1.prefix, Vec::<u8>::new());
}

#[test]
fn heuristic_no_marker_pair_yields_nothing() {
    // A recognizable filename with no marker pair within 100 bytes is not
    // recovered.
    let mut data = b"bg.png".to_vec();
    while data.len() < 160 {
        data.push(0);
    }
    let entries = parse_binary_dict(&data, 0);
    assert!(entries.is_empty());
    assert_eq!(find_entry_data_after_filename(&data, 0, 6), None);
}

#[test]
fn heuristic_unmasks_with_key() {
    let key = 0xDEADBEEFu32;
    let mut data = b"ev.jpg\0".to_vec();
    data.push(b'J');
    data.extend_from_slice(&(1000u32 ^ key).to_le_bytes());
    data.push(b'J');
    data.extend_from_slice(&(20u32 ^ key).to_le_bytes());
    while data.len() < 40 {
        data.push(0);
    }
    let entries = parse_binary_dict(&data, key);
    assert_eq!(entries.len(), 1);
    assert_eq!(entries[0].1.offset, 1000);
    assert_eq!(entries[0].1.length, 20);
}

#[test]
fn heuristic_scan_jumps_past_accepted_region() {
    // After an accepted entry the scan resumes 50 bytes past the filename's
    // end: a second token inside the skipped region is not recovered.
    let mut data = b"aa.png\0".to_vec();
    data.push(b'J');
    data.extend_from_slice(&100u32.to_le_bytes());
    data.push(b'J');
    data.extend_from_slice(&10u32.to_le_bytes());
    // A second recognizable filename within the 50 skipped bytes.
    data.extend_from_slice(b"\0bb.png\0");
    data.push(b'J');
    data.extend_from_slice(&200u32.to_le_bytes());
    data.push(b'J');
    data.extend_from_slice(&20u32.to_le_bytes());
    while data.len() < 80 {
        data.push(0);
    }
    let entries = parse_binary_dict(&data, 0);
    assert_eq!(entries.len(), 1);
    assert_eq!(entries[0].0, "aa.png");
}

#[test]
fn string_helpers() {
    assert!(str_lt("a.png", "b.png"));
    assert!(!str_lt("b.png", "a.png"));
    assert!(!str_lt("a", "a"));
    assert!(str_lt("a", "ab"));
    assert!(str_eq("same", "same"));
    assert!(!str_eq("same", "sane"));
    assert!(str_contains("hello world", "lo wo"));
    assert!(!str_contains("hello", "world"));
    assert!(str_contains("anything", ""));
    assert_eq!(to_lowercase("BG.PNG"), "bg.png");
    assert_eq!(string_from_ascii(b"abc/def.png".to_vec()), "abc/def.png");
    let sorted = sort_names(vec![
        String::from("b.png"),
        String::from("a.png"),
        String::from("c/a.ogg"),
    ]);
    assert_eq!(sorted, vec![
        String::from("a.png"),
        String::from("b.png"),
        String::from("c/a.ogg"),
    ]);
}
