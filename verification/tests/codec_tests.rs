use rustsearch::codec::{decode_cache, encode_cache, load_cache_v2, EngineError};
use rustsearch::entry::FileEntry;

fn push_le(out: &mut Vec<u8>, x: u64, n: usize) {
    let mut v = x;
    for _ in 0..n {
        out.push((v % 256) as u8);
        v /= 256;
    }
}

fn push_v1_string(out: &mut Vec<u8>, s: &str) {
    push_le(out, s.len() as u64, 8);
    out.extend_from_slice(s.as_bytes());
}

fn legacy_image() -> Vec<u8> {
    let mut b = Vec::new();
    push_le(&mut b, 1, 4); // version
    push_le(&mut b, 1, 8); // one record
    push_v1_string(&mut b, "Old.TXT");
    push_v1_string(&mut b, "old.txt");
    push_v1_string(&mut b, "C:/Old.TXT");
    push_v1_string(&mut b, "c:/old.txt");
    push_le(&mut b, 77, 8); // size
    push_le(&mut b, 88, 8); // modified
    b.push(0); // not a directory
    b.push(1); // hidden
    b
}

fn sample_entries() -> Vec<FileEntry> {
    vec![
        FileEntry::new(
            "report.txt".to_string(),
            "C:/docs/report.txt".to_string(),
            0,
            0,
            0,
            1234,
            99,
            false,
            false,
        ),
        FileEntry::new(
            "docs".to_string(),
            "C:/docs".to_string(),
            0,
            0,
            0,
            u64::MAX,
            0,
            true,
            false,
        ),
        FileEntry::new(
            ".hidden".to_string(),
            "C:/docs/.hidden".to_string(),
            0,
            0,
            0,
            300,
            100000,
            false,
            true,
        ),
        FileEntry::new(
            "größe.txt".to_string(),
            "C:/docs/größe.txt".to_string(),
            0,
            0,
            0,
            1 << 40,
            1 << 40,
            false,
            false,
        ),
    ]
}

#[test]
fn cache_round_trip_reproduces_entries() {
    let entries = sample_entries();
    let bytes = encode_cache(&entries);
    let loaded = load_cache_v2(&bytes).expect("round trip must load");
    assert_eq!(loaded.len(), entries.len());
    for (orig, back) in entries.iter().zip(loaded.iter()) {
        assert_eq!(back.path, orig.path);
        assert_eq!(back.size, orig.size);
        assert_eq!(back.modified_ms, orig.modified_ms);
        assert_eq!(back.is_dir, orig.is_dir);
        assert_eq!(back.is_hidden, orig.is_hidden);
        // names and lowercase keys are recomputed, not stored, and must
        // equal the originals
        assert_eq!(back.name, orig.name);
        assert_eq!(back.name_lower, orig.name_lower);
        assert_eq!(back.path_lower, orig.path_lower);
    }
}

#[test]
fn cache_round_trip_of_empty_table() {
    let entries: Vec<FileEntry> = Vec::new();
    let bytes = encode_cache(&entries);
    let loaded = load_cache_v2(&bytes).expect("empty cache must load");
    assert!(loaded.is_empty());
}

#[test]
fn wrong_magic_is_a_cache_format_error() {
    let entries = sample_entries();
    let mut bytes = encode_cache(&entries);
    bytes[0] = 0x51;
    assert_eq!(load_cache_v2(&bytes).err(), Some(EngineError::CacheFormatError));
}

#[test]
fn wrong_version_is_a_cache_format_error() {
    let entries = sample_entries();
    let mut bytes = encode_cache(&entries);
    bytes[4] = 3;
    assert_eq!(load_cache_v2(&bytes).err(), Some(EngineError::CacheFormatError));
}

#[test]
fn truncated_payload_is_a_cache_format_error() {
    let entries = sample_entries();
    let mut bytes = encode_cache(&entries);
    bytes.truncate(bytes.len() - 1);
    assert_eq!(load_cache_v2(&bytes).err(), Some(EngineError::CacheFormatError));
}

#[test]
fn trailing_garbage_is_a_cache_format_error() {
    let entries = sample_entries();
    let mut bytes = encode_cache(&entries);
    bytes.push(0);
    assert_eq!(load_cache_v2(&bytes).err(), Some(EngineError::CacheFormatError));
}

#[test]
fn short_image_is_a_cache_format_error() {
    let bytes = vec![0x52u8, 0x53, 0x49];
    assert_eq!(load_cache_v2(&bytes).err(), Some(EngineError::CacheFormatError));
}

#[test]
fn legacy_images_without_the_magic_still_load() {
    let b = legacy_image();
    let (entries, legacy) = decode_cache(&b).expect("legacy image loads");
    assert!(legacy);
    assert_eq!(entries.len(), 1);
    assert_eq!(entries[0].name, "Old.TXT");
    assert_eq!(entries[0].name_lower, "old.txt");
    assert_eq!(entries[0].path, "C:/Old.TXT");
    assert_eq!(entries[0].size, 77);
    assert_eq!(entries[0].modified_ms, 88);
    assert!(!entries[0].is_dir);
    assert!(entries[0].is_hidden);
}

#[test]
fn current_images_report_no_rewrite() {
    let bytes = encode_cache(&sample_entries());
    let (entries, legacy) = decode_cache(&bytes).expect("current image loads");
    assert!(!legacy);
    assert_eq!(entries.len(), 4);
}

#[test]
fn legacy_images_with_a_wrong_version_fail() {
    let mut b = legacy_image();
    b[0] = 2;
    assert_eq!(decode_cache(&b).err(), Some(EngineError::CacheFormatError));
}

#[test]
fn legacy_images_with_a_bad_flag_byte_fail() {
    let mut b = legacy_image();
    let last = b.len() - 1;
    b[last] = 7;
    assert_eq!(decode_cache(&b).err(), Some(EngineError::CacheFormatError));
}

#[test]
fn invalid_path_bytes_are_a_cache_format_error() {
    // one entry whose path length is one byte of invalid UTF-8
    let entries = vec![FileEntry::new(
        "a".to_string(),
        "a".to_string(),
        0,
        0,
        0,
        0,
        0,
        false,
        false,
    )];
    let mut bytes = encode_cache(&entries);
    // the path byte sits right after the header, the count, and the length
    bytes[10] = 0xFF;
    assert_eq!(load_cache_v2(&bytes).err(), Some(EngineError::CacheFormatError));
}
