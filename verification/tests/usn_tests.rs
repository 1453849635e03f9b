use std::collections::HashMap;
use rustsearch::codec::EngineError;
use rustsearch::sync::{
    UsnEvent, FILE_ATTRIBUTE_DIRECTORY, USN_REASON_FILE_CREATE, USN_REASON_RENAME_OLD_NAME,
};
use rustsearch::usn::{
    build_full_path, collect_mft_nodes, collect_usn_events, decode_usn_record,
    entries_from_nodes, Node, MAX_USN_EVENTS,
};

fn push_le(out: &mut Vec<u8>, x: u64, n: usize) {
    let mut v = x;
    for _ in 0..n {
        out.push((v % 256) as u8);
        v /= 256;
    }
}

fn push_record(
    out: &mut Vec<u8>,
    major: u64,
    frn: u64,
    parent: u64,
    reason: u32,
    attrs: u32,
    name: &str,
) {
    let units: Vec<u16> = name.encode_utf16().collect();
    let name_bytes = units.len() * 2;
    let record_length = 60 + name_bytes;
    push_le(out, record_length as u64, 4);
    push_le(out, major, 2); // major version
    push_le(out, 0, 2); // minor version
    push_le(out, frn, 8);
    push_le(out, parent, 8);
    push_le(out, 0, 8); // sequence position
    push_le(out, 0, 8); // timestamp
    push_le(out, reason as u64, 4);
    push_le(out, 0, 4); // source info
    push_le(out, 0, 4); // security id
    push_le(out, attrs as u64, 4);
    push_le(out, name_bytes as u64, 2);
    push_le(out, 60, 2); // name offset
    for u in units {
        push_le(out, u as u64, 2);
    }
}

const ROOT: u64 = 5;

#[test]
fn decode_reads_fields_and_name() {
    let mut buf = Vec::new();
    push_record(&mut buf, 2, 42, ROOT, USN_REASON_FILE_CREATE, FILE_ATTRIBUTE_DIRECTORY, "Ärger");
    let n = buf.len();
    let (rec, next) = decode_usn_record(&buf, 0, n).expect("well-formed record");
    assert_eq!(next, n);
    assert_eq!(rec.major_version, 2);
    assert_eq!(rec.frn, 42);
    assert_eq!(rec.parent_frn, ROOT);
    assert_eq!(rec.reason, USN_REASON_FILE_CREATE);
    assert_eq!(rec.attrs, FILE_ATTRIBUTE_DIRECTORY);
    assert!(rec.has_name);
    assert_eq!(rec.name, "Ärger");
}

#[test]
fn decode_rejects_truncated_and_oversized_records() {
    let mut buf = Vec::new();
    push_record(&mut buf, 2, 42, ROOT, USN_REASON_FILE_CREATE, 0, "x");
    // region shorter than a header
    assert!(decode_usn_record(&buf, 0, 59).is_none());
    // record length runs past the region
    assert!(decode_usn_record(&buf, 0, 61).is_none());
    // zero record length
    let zeros = vec![0u8; 100];
    assert!(decode_usn_record(&zeros, 0, 100).is_none());
}

#[test]
fn name_overrunning_its_record_is_dropped_not_read() {
    let mut buf = Vec::new();
    push_record(&mut buf, 2, 42, ROOT, USN_REASON_FILE_CREATE, 0, "abc");
    // claim a name longer than the record holds
    buf[56] = 200;
    let n = buf.len();
    let (rec, _) = decode_usn_record(&buf, 0, n).expect("record still parses");
    assert!(!rec.has_name);
    assert_eq!(rec.name, "");
}

#[test]
fn mft_walk_collects_nodes_and_paths_resolve() {
    let mut buf = Vec::new();
    push_le(&mut buf, 900, 8); // continuation reference
    push_record(&mut buf, 2, 10, ROOT, 0, FILE_ATTRIBUTE_DIRECTORY, "docs");
    push_record(&mut buf, 2, 11, 10, 0, 0, "a.txt");
    push_record(&mut buf, 1, 12, 10, 0, 0, "old_version_skipped");
    let n = buf.len();

    let mut nodes: HashMap<u64, Node> = HashMap::new();
    let next = collect_mft_nodes(&mut nodes, &buf, n);
    assert_eq!(next, Some(900));
    assert_eq!(nodes.len(), 2);

    let p = build_full_path(&nodes, ROOT, b'C', 11).expect("chain resolves");
    assert_eq!(p, "C:/docs/a.txt");
    assert_eq!(build_full_path(&nodes, ROOT, b'C', 999), None);

    let entries = entries_from_nodes(&nodes, ROOT, b'C');
    assert_eq!(entries.len(), 2);
    let file = entries.iter().find(|e| e.frn == 11).unwrap();
    assert_eq!(file.path, "C:/docs/a.txt");
    assert_eq!(file.name, "a.txt");
    assert_eq!(file.path_lower, "c:/docs/a.txt");
    assert_eq!(file.size, u64::MAX);
    let dir = entries.iter().find(|e| e.frn == 10).unwrap();
    assert!(dir.is_dir);
    assert_eq!(dir.path, "C:/docs");
}

#[test]
fn cyclic_parent_chains_are_dropped_by_the_depth_guard() {
    let mut nodes: HashMap<u64, Node> = HashMap::new();
    nodes.insert(1, Node { parent: 2, name: "one".to_string(), attrs: 0 });
    nodes.insert(2, Node { parent: 1, name: "two".to_string(), attrs: 0 });
    assert_eq!(build_full_path(&nodes, ROOT, b'C', 1), None);
    let entries = entries_from_nodes(&nodes, ROOT, b'C');
    assert!(entries.is_empty());
}

#[test]
fn orphan_parents_hang_off_the_volume_root() {
    let mut nodes: HashMap<u64, Node> = HashMap::new();
    nodes.insert(7, Node { parent: 0, name: "stray.txt".to_string(), attrs: 0 });
    assert_eq!(build_full_path(&nodes, ROOT, b'C', 7).unwrap(), "C:/stray.txt");
}

#[test]
fn event_walk_filters_and_reads_the_cursor() {
    let mut buf = Vec::new();
    push_le(&mut buf, 4242, 8); // next cursor position
    push_record(&mut buf, 2, 21, ROOT, USN_REASON_FILE_CREATE, 0, "kept.txt");
    // a lone old-name rename record carries nothing usable
    push_record(&mut buf, 2, 22, ROOT, USN_REASON_RENAME_OLD_NAME, 0, "gone.txt");
    // the volume root itself is never an event
    push_record(&mut buf, 2, ROOT, ROOT, USN_REASON_FILE_CREATE, 0, "root");
    // an unrelated reason is ignored
    push_record(&mut buf, 2, 23, ROOT, 0x8000, 0, "meta.txt");
    let n = buf.len();

    let mut events: Vec<UsnEvent> = Vec::new();
    let r = collect_usn_events(&mut events, &buf, n, ROOT);
    assert_eq!(r, Ok(Some(4242)));
    assert_eq!(events.len(), 1);
    assert_eq!(events[0].frn, 21);
    assert_eq!(events[0].name, "kept.txt");
}

#[test]
fn short_buffer_ends_the_event_read() {
    let buf = vec![0u8; 4];
    let mut events: Vec<UsnEvent> = Vec::new();
    let r = collect_usn_events(&mut events, &buf, 4, ROOT);
    assert_eq!(r, Ok(None));
    assert!(events.is_empty());
}

#[test]
fn exceeding_the_event_cap_forces_reenumeration() {
    let mut events: Vec<UsnEvent> = Vec::new();
    for i in 0..MAX_USN_EVENTS {
        events.push(UsnEvent {
            frn: i as u64 + 100,
            parent_frn: ROOT,
            attrs: 0,
            reason: USN_REASON_FILE_CREATE,
            name: "e".to_string(),
        });
    }
    let mut buf = Vec::new();
    push_le(&mut buf, 1, 8);
    push_record(&mut buf, 2, 21, ROOT, USN_REASON_FILE_CREATE, 0, "one_too_many.txt");
    let n = buf.len();
    let r = collect_usn_events(&mut events, &buf, n, ROOT);
    assert_eq!(r, Err(EngineError::ChangeVolumeExceeded));
}
