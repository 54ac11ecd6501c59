use unrpa::editor::RpaEditor;
use unrpa::entry::RpaFileEntry;
use unrpa::error::CodecError;
use unrpa::listing::get_file_type;
use unrpa::toast::Toast;
use unrpa::version::RpaVersion;

/// Build a real 3.0-style archive holding the given payloads, with the
/// index entries obfuscated by the key.
fn build_archive_3_0(key: u32, entries: &[(&str, &[u8])]) -> Vec<u8> {
    let mut out = vec![0u8; 0x34];
    let mut dict = std::collections::BTreeMap::new();
    for (name, data) in entries {
        let off = out.len() as u64;
        out.extend_from_slice(data);
        dict.insert(
            serde_pickle::HashableValue::String(name.to_string()),
            serde_pickle::Value::List(vec![serde_pickle::Value::Tuple(vec![
                serde_pickle::Value::I64((off ^ key as u64) as i64),
                serde_pickle::Value::I64((data.len() as u64 ^ key as u64) as i64),
                serde_pickle::Value::Bytes(Vec::new()),
            ])]),
        );
    }
    let raw = serde_pickle::value_to_vec(
        &serde_pickle::Value::Dict(dict),
        serde_pickle::SerOptions::new(),
    )
    .unwrap();
    let mut enc = flate2::write::ZlibEncoder::new(Vec::new(), flate2::Compression::default());
    std::io::Write::write_all(&mut enc, &raw).unwrap();
    let comp = enc.finish().unwrap();
    let index_off = out.len() as u64;
    out.extend_from_slice(&comp);
    let header = format!("RPA-3.0 {:016x} {:08x}\n", index_off, key);
    out[..header.len()].copy_from_slice(header.as_bytes());
    out
}

#[test]
fn load_structured_archive() {
    let key = 0xDEADBEEF;
    let data = build_archive_3_0(key, &[("bg.png", b"PNGDATA"), ("script.rpy", b"label start:")]);
    let mut ed = RpaEditor::new();
    ed.load_rpa(data).unwrap();
    assert_eq!(ed.version, RpaVersion::V3_0);
    assert_eq!(ed.key, key);
    assert_eq!(ed.indexes.len(), 2);
    assert_eq!(ed.load_file_data("bg.png").unwrap(), b"PNGDATA".to_vec());
    assert_eq!(ed.load_file_data("script.rpy").unwrap(), b"label start:".to_vec());
    assert!(!ed.modified);
    assert!(ed.validate_entries().is_empty());
}

#[test]
fn load_rejects_bad_header() {
    let mut ed = RpaEditor::new();
    assert_eq!(
        ed.load_rpa(vec![0u8; 64]),
        Err(CodecError::UnsupportedFormat)
    );
}

#[test]
fn load_rejects_bad_compression() {
    let mut line = b"RPA-3.0 0000000000000040 00000000\n".to_vec();
    while line.len() < 0x40 {
        line.push(0);
    }
    line.extend_from_slice(b"this is not a zlib stream");
    let mut ed = RpaEditor::new();
    assert_eq!(ed.load_rpa(line), Err(CodecError::DecompressionError));
}

#[test]
fn load_falls_back_to_heuristic_on_non_mapping_root() {
    // The compressed block decodes as a pickled list, not a mapping: the
    // structured decode fails and the heuristic scan finds nothing in it.
    let raw = serde_pickle::value_to_vec(
        &serde_pickle::Value::List(vec![serde_pickle::Value::I64(5)]),
        serde_pickle::SerOptions::new(),
    )
    .unwrap();
    let mut enc = flate2::write::ZlibEncoder::new(Vec::new(), flate2::Compression::default());
    std::io::Write::write_all(&mut enc, &raw).unwrap();
    let comp = enc.finish().unwrap();
    let mut out = vec![0u8; 0x34];
    let index_off = out.len() as u64;
    out.extend_from_slice(&comp);
    let header = format!("RPA-3.0 {:016x} {:08x}\n", index_off, 0);
    out[..header.len()].copy_from_slice(header.as_bytes());
    let mut ed = RpaEditor::new();
    ed.load_rpa(out).unwrap();
    assert_eq!(ed.indexes.len(), 0);
}

#[test]
fn read_errors() {
    let mut ed = RpaEditor::new();
    assert_eq!(ed.load_file_data("nope.png"), Err(CodecError::EntryNotFound));
    // An on-disk entry without backing bytes cannot be read.
    ed.indexes.insert(
        String::from("ghost.png"),
        RpaFileEntry {
            offset: 0x100,
            length: 4,
            prefix: Vec::new(),
            data: None,
            modified: false,
            to_delete: false,
        },
    );
    assert_eq!(ed.load_file_data("ghost.png"), Err(CodecError::NoBackingFile));
    // An extent past the backing bytes fails the read.
    let data = build_archive_3_0(0, &[("a.png", b"AAAA")]);
    let mut ed2 = RpaEditor::new();
    ed2.load_rpa(data).unwrap();
    ed2.indexes.insert(
        String::from("broken.png"),
        RpaFileEntry {
            offset: 1 << 40,
            length: 10,
            prefix: Vec::new(),
            data: None,
            modified: false,
            to_delete: false,
        },
    );
    assert_eq!(ed2.load_file_data("broken.png"), Err(CodecError::ReadFailure));
    assert_eq!(ed2.validate_entries(), vec![String::from("broken.png")]);
}

#[test]
fn read_assembles_prefix_and_extent() {
    // An entry's payload is its inline prefix followed by the rest of the
    // extent read from the offset: the prefix bytes are never re-read from
    // the backing bytes.
    let data = build_archive_3_0(0, &[("a.png", b"WXYZ")]);
    let mut ed = RpaEditor::new();
    ed.load_rpa(data).unwrap();
    let base = ed.indexes.get("a.png").unwrap().offset;
    ed.indexes.insert(
        String::from("p.png"),
        RpaFileEntry {
            offset: base,
            length: 4,
            prefix: vec![9, 8],
            data: None,
            modified: false,
            to_delete: false,
        },
    );
    // prefix [9, 8] then length - prefix = 2 bytes from the offset: "WX".
    assert_eq!(ed.load_file_data("p.png").unwrap(), vec![9, 8, b'W', b'X']);
    // A length shorter than the prefix cannot be read.
    ed.indexes.insert(
        String::from("q.png"),
        RpaFileEntry {
            offset: base,
            length: 1,
            prefix: vec![9, 8],
            data: None,
            modified: false,
            to_delete: false,
        },
    );
    assert_eq!(ed.load_file_data("q.png"), Err(CodecError::ReadFailure));
}

#[test]
fn replace_then_read_returns_replacement() {
    let data = build_archive_3_0(7, &[("bg.png", b"ORIGINAL")]);
    let mut ed = RpaEditor::new();
    ed.load_rpa(data).unwrap();
    ed.replace_file("bg.png", b"REPLACEMENT".to_vec()).unwrap();
    assert!(ed.modified);
    assert_eq!(ed.load_file_data("bg.png").unwrap(), b"REPLACEMENT".to_vec());
    assert_eq!(
        ed.replace_file("absent.png", vec![1]),
        Err(CodecError::EntryNotFound)
    );
}

#[test]
fn add_file_and_backup_ring() {
    let data = build_archive_3_0(1, &[("bg.png", b"OLDBYTES")]);
    let mut ed = RpaEditor::new();
    ed.load_rpa(data).unwrap();
    assert!(ed.auto_backup);
    ed.add_file("bg.png", b"NEWBYTES".to_vec());
    assert_eq!(ed.load_file_data("bg.png").unwrap(), b"NEWBYTES".to_vec());
    assert_eq!(ed.backup_history.len(), 1);
    assert_eq!(ed.backup_history[0].filename, "bg.png");
    assert_eq!(ed.backup_history[0].data, b"OLDBYTES".to_vec());
    // A brand-new name takes no backup.
    ed.add_file("fresh.txt", b"hello".to_vec());
    assert_eq!(ed.backup_history.len(), 1);
    assert_eq!(ed.indexes.len(), 2);
    // The ring is bounded: the oldest backup is evicted past the cap.
    for i in 0..15 {
        ed.add_file("bg.png", vec![i as u8]);
    }
    assert_eq!(ed.backup_history.len(), 10);
}

#[test]
fn roundtrip_save_then_reload() {
    let key = 0xCAFEF00D;
    let data = build_archive_3_0(
        key,
        &[("a.png", b"AAAA"), ("m/b.ogg", b"BBBBBB"), ("z.rpy", b"zz")],
    );
    let mut ed = RpaEditor::new();
    ed.load_rpa(data).unwrap();
    let saved = ed.save_rpa().unwrap();
    let mut ed2 = RpaEditor::new();
    ed2.load_rpa(saved).unwrap();
    assert_eq!(ed2.version, RpaVersion::V3_0);
    assert_eq!(ed2.key, key);
    assert_eq!(ed2.indexes.len(), 3);
    assert_eq!(ed2.load_file_data("a.png").unwrap(), b"AAAA".to_vec());
    assert_eq!(ed2.load_file_data("m/b.ogg").unwrap(), b"BBBBBB".to_vec());
    assert_eq!(ed2.load_file_data("z.rpy").unwrap(), b"zz".to_vec());
}

#[test]
fn roundtrip_keeps_replacements() {
    let data = build_archive_3_0(3, &[("a.png", b"AAAA"), ("b.png", b"BBBB")]);
    let mut ed = RpaEditor::new();
    ed.load_rpa(data).unwrap();
    ed.replace_file("b.png", b"NEW".to_vec()).unwrap();
    let saved = ed.save_rpa().unwrap();
    let mut ed2 = RpaEditor::new();
    ed2.load_rpa(saved).unwrap();
    assert_eq!(ed2.load_file_data("a.png").unwrap(), b"AAAA".to_vec());
    assert_eq!(ed2.load_file_data("b.png").unwrap(), b"NEW".to_vec());
}

#[test]
fn delete_then_save_drops_the_entry() {
    let data = build_archive_3_0(9, &[("keep.png", b"KEEP"), ("gone.png", b"GONE")]);
    let mut ed = RpaEditor::new();
    ed.load_rpa(data).unwrap();
    ed.remove_file("gone.png");
    assert!(ed.modified);
    // The entry survives in the store until the save.
    assert_eq!(ed.indexes.len(), 2);
    let saved = ed.save_rpa().unwrap();
    let mut ed2 = RpaEditor::new();
    ed2.load_rpa(saved).unwrap();
    assert_eq!(ed2.indexes.len(), 1);
    assert!(ed2.indexes.contains("keep.png"));
    assert!(!ed2.indexes.contains("gone.png"));
    assert_eq!(ed2.load_file_data("gone.png"), Err(CodecError::EntryNotFound));
}

#[test]
fn save_without_source_bytes_fails() {
    let data = build_archive_3_0(2, &[("a.png", b"AAAA")]);
    let mut ed = RpaEditor::new();
    ed.load_rpa(data).unwrap();
    ed.indexes.insert(
        String::from("phantom.png"),
        RpaFileEntry {
            offset: 1 << 40,
            length: 16,
            prefix: Vec::new(),
            data: None,
            modified: false,
            to_delete: false,
        },
    );
    assert_eq!(ed.save_rpa(), Err(CodecError::SourceDataMissing));
}

#[test]
fn save_header_shape() {
    let key = 0x0BADF00D;
    let data = build_archive_3_0(key, &[("a.png", b"AAAA")]);
    let mut ed = RpaEditor::new();
    ed.load_rpa(data).unwrap();
    let saved = ed.save_rpa().unwrap();
    assert_eq!(&saved[..8], b"RPA-3.0 ");
    assert_eq!(saved[24], b' ');
    assert_eq!(saved[33], b'\n');
    let key_hex = std::str::from_utf8(&saved[25..33]).unwrap();
    assert_eq!(u32::from_str_radix(key_hex, 16).unwrap(), key);
    // The first payload is written right after the reserved header region.
    assert_eq!(&saved[0x34..0x38], b"AAAA");
}

/// Build a real 3.2-style archive: the token after the offset belongs to
/// the offset record, the fragments after it carry the key.
fn build_archive_3_2(key: u32, entries: &[(&str, &[u8])]) -> Vec<u8> {
    let mut out = build_archive_3_0(key, entries);
    let index_off = {
        let line = std::str::from_utf8(&out[..34]).unwrap();
        u64::from_str_radix(&line[8..24], 16).unwrap()
    };
    let header = format!("RPA-3.2 {:016x} 00000000 {:08x}\n", index_off, key);
    out[..header.len()].copy_from_slice(header.as_bytes());
    out
}

#[test]
fn saving_a_3_2_archive_emits_a_2_0_header() {
    // The save path emits only 3.0-style and 2.0-style headers: a 3.2
    // archive is rebuilt with a 2.0-style header and unobfuscated index
    // words, so a plain save-reload round trip holds only for 3.0 archives.
    let key = 0x13572468;
    let data = build_archive_3_2(key, &[("a.png", b"AAAA")]);
    let mut ed = RpaEditor::new();
    ed.load_rpa(data).unwrap();
    assert_eq!(ed.version, RpaVersion::V3_2);
    assert_eq!(ed.key, key);
    assert_eq!(ed.load_file_data("a.png").unwrap(), b"AAAA".to_vec());
    let saved = ed.save_rpa().unwrap();
    assert_eq!(&saved[..8], b"RPA-2.0 ");
}

#[test]
fn unload_resets_the_session() {
    let data = build_archive_3_0(5, &[("a.png", b"AAAA")]);
    let mut ed = RpaEditor::new();
    ed.load_rpa(data).unwrap();
    ed.remove_file("a.png");
    ed.unload_rpa().unwrap();
    assert_eq!(ed.indexes.len(), 0);
    assert!(ed.archive_data.is_none());
    assert!(!ed.modified);
    assert_eq!(ed.version, RpaVersion::V3_2);
    assert_eq!(ed.key, 0xDEADBEEF);
}

#[test]
fn file_type_classification() {
    assert_eq!(get_file_type("bg.png"), "images");
    assert_eq!(get_file_type("BG.PNG"), "images");
    assert_eq!(get_file_type("movie.webm"), "videos");
    assert_eq!(get_file_type("song.Ogg"), "audio");
    assert_eq!(get_file_type("script.rpyc"), "scripts");
    assert_eq!(get_file_type("font.woff2"), "fonts");
    assert_eq!(get_file_type("config.yml"), "files");
    assert_eq!(get_file_type("archive.bin"), "other");
}

#[test]
fn statistics_counts() {
    let data = build_archive_3_0(
        4,
        &[("a.png", b"AAAA"), ("b.jpg", b"BB"), ("c.ogg", b"CCC"), ("d.bin", b"D")],
    );
    let mut ed = RpaEditor::new();
    ed.load_rpa(data).unwrap();
    ed.remove_file("d.bin");
    ed.replace_file("a.png", b"XYZXYZ".to_vec()).unwrap();
    let stats = ed.get_archive_statistics();
    assert_eq!(stats.total_files, 4);
    assert_eq!(stats.images, 2);
    assert_eq!(stats.audio, 1);
    assert_eq!(stats.other, 1);
    assert_eq!(stats.videos, 0);
    // Replacing marks the entry modified; a deletion mark alone does not.
    assert_eq!(stats.modified, 1);
    assert_eq!(stats.to_delete, 1);
    // 6 (replacement) + 2 + 3 + 1
    assert_eq!(stats.total_size, 12);
    assert_eq!(stats.compression_level, 6);
    assert!(stats.auto_backup);
    // Only an add captures a backup; a replace does not.
    assert_eq!(stats.backups, 0);
}

#[test]
fn listing_filters_and_sorts() {
    let data = build_archive_3_0(
        8,
        &[("b.png", b"12345"), ("a.png", b"123"), ("c.ogg", b"1234567"), ("d.txt", b"1")],
    );
    let mut ed = RpaEditor::new();
    ed.load_rpa(data).unwrap();
    // Sorted by name ascending by default.
    let rows = ed.get_filtered_sorted_files();
    let names: Vec<&str> = rows.iter().map(|r| r.0.as_str()).collect();
    assert_eq!(names, vec!["a.png", "b.png", "c.ogg", "d.txt"]);
    // Filter to images only.
    ed.filter_type = String::from("images");
    let rows = ed.get_filtered_sorted_files();
    let names: Vec<&str> = rows.iter().map(|r| r.0.as_str()).collect();
    assert_eq!(names, vec!["a.png", "b.png"]);
    // Search is case-insensitive.
    ed.filter_type = String::from("all");
    ed.search_filter = String::from("C.OGG");
    let rows = ed.get_filtered_sorted_files();
    assert_eq!(rows.len(), 1);
    assert_eq!(rows[0].0, "c.ogg");
    // Sort by size descending.
    ed.search_filter = String::new();
    ed.sort_by = String::from("size");
    ed.sort_ascending = false;
    let rows = ed.get_filtered_sorted_files();
    let sizes: Vec<u64> = rows.iter().map(|r| r.1).collect();
    assert_eq!(sizes, vec![7, 5, 3, 1]);
}

#[test]
fn toast_expiry() {
    let t = Toast::new(String::from("saved"));
    assert_eq!(t.message, "saved");
    assert_eq!(t.duration, 3000);
    assert!(!t.is_expired());
    assert!(!t.is_expired_at(t.created_at + 3000));
    assert!(t.is_expired_at(t.created_at + 3001));
    assert!(!t.is_expired_at(t.created_at));
}
