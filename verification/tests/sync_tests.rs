use rustsearch::codec::EngineError;
use rustsearch::entry::{FileEntry, UsnDriveState};
use rustsearch::sync::{
    is_drive_root, try_apply_usn_incremental, UsnEvent, FILE_ATTRIBUTE_DIRECTORY,
    USN_REASON_FILE_CREATE, USN_REASON_FILE_DELETE, USN_REASON_RENAME_NEW_NAME,
};

const DRIVE: u8 = b'C';
const ROOT: u64 = 5;

fn state() -> UsnDriveState {
    UsnDriveState { drive: DRIVE, journal_id: 77, root_frn: ROOT, last_usn: 10 }
}

fn vol_entry(name: &str, path: &str, frn: u64, parent: u64, is_dir: bool) -> FileEntry {
    FileEntry::new(
        name.to_string(),
        path.to_string(),
        DRIVE,
        frn,
        parent,
        0,
        0,
        is_dir,
        false,
    )
}

fn tree() -> Vec<FileEntry> {
    vec![
        vol_entry("docs", "C:/docs", 10, ROOT, true),
        vol_entry("a.txt", "C:/docs/a.txt", 11, 10, false),
        vol_entry("sub", "C:/docs/sub", 12, 10, true),
        vol_entry("b.txt", "C:/docs/sub/b.txt", 13, 12, false),
        vol_entry("other.txt", "C:/other.txt", 20, ROOT, false),
    ]
}

#[test]
fn journal_id_mismatch_reports_invalidated_and_keeps_entries() {
    let mut entries = tree();
    let before: Vec<String> = entries.iter().map(|e| e.path.clone()).collect();
    let mut st = state();
    let events = vec![UsnEvent {
        frn: 11,
        parent_frn: 10,
        attrs: 0,
        reason: USN_REASON_FILE_DELETE,
        name: "a.txt".to_string(),
    }];
    let r = try_apply_usn_incremental(&mut entries, &mut st, 9999, 42, &events);
    assert_eq!(r, Err(EngineError::JournalInvalidated));
    let after: Vec<String> = entries.iter().map(|e| e.path.clone()).collect();
    assert_eq!(before, after);
    assert_eq!(st.last_usn, 10);
}

#[test]
fn deleting_a_directory_removes_its_whole_subtree() {
    let mut entries = tree();
    let mut st = state();
    let events = vec![UsnEvent {
        frn: 10,
        parent_frn: ROOT,
        attrs: FILE_ATTRIBUTE_DIRECTORY,
        reason: USN_REASON_FILE_DELETE,
        name: "docs".to_string(),
    }];
    let r = try_apply_usn_incremental(&mut entries, &mut st, 77, 42, &events);
    assert_eq!(r, Ok(()));
    assert_eq!(st.last_usn, 42);
    let paths: Vec<&str> = entries.iter().map(|e| e.path.as_str()).collect();
    assert_eq!(paths, vec!["C:/other.txt"]);
}

#[test]
fn renaming_a_directory_moves_every_descendant() {
    let mut entries = tree();
    let mut st = state();
    let events = vec![UsnEvent {
        frn: 10,
        parent_frn: ROOT,
        attrs: FILE_ATTRIBUTE_DIRECTORY,
        reason: USN_REASON_RENAME_NEW_NAME,
        name: "papers".to_string(),
    }];
    let r = try_apply_usn_incremental(&mut entries, &mut st, 77, 42, &events);
    assert_eq!(r, Ok(()));
    assert_eq!(entries[0].name, "papers");
    assert_eq!(entries[0].path, "C:/papers");
    assert_eq!(entries[1].path, "C:/papers/a.txt");
    assert_eq!(entries[1].name, "a.txt");
    assert_eq!(entries[2].path, "C:/papers/sub");
    assert_eq!(entries[3].path, "C:/papers/sub/b.txt");
    assert_eq!(entries[3].path_lower, "c:/papers/sub/b.txt");
    assert_eq!(entries[4].path, "C:/other.txt");
}

#[test]
fn create_event_inserts_under_resolved_parent() {
    let mut entries = tree();
    let mut st = state();
    let events = vec![UsnEvent {
        frn: 30,
        parent_frn: 12,
        attrs: 0,
        reason: USN_REASON_FILE_CREATE,
        name: "new.txt".to_string(),
    }];
    let r = try_apply_usn_incremental(&mut entries, &mut st, 77, 42, &events);
    assert_eq!(r, Ok(()));
    assert_eq!(entries.len(), 6);
    let added = entries.last().unwrap();
    assert_eq!(added.path, "C:/docs/sub/new.txt");
    assert_eq!(added.name, "new.txt");
    assert_eq!(added.size, u64::MAX);
    assert_eq!(added.frn, 30);
}

#[test]
fn create_event_with_unknown_parent_is_dropped() {
    let mut entries = tree();
    let mut st = state();
    let events = vec![UsnEvent {
        frn: 30,
        parent_frn: 999,
        attrs: 0,
        reason: USN_REASON_FILE_CREATE,
        name: "lost.txt".to_string(),
    }];
    let r = try_apply_usn_incremental(&mut entries, &mut st, 77, 42, &events);
    assert_eq!(r, Ok(()));
    assert_eq!(entries.len(), 5);
}

#[test]
fn create_event_for_known_reference_is_idempotent() {
    let mut entries = tree();
    let mut st = state();
    let events = vec![UsnEvent {
        frn: 11,
        parent_frn: 10,
        attrs: 0,
        reason: USN_REASON_FILE_CREATE,
        name: "a.txt".to_string(),
    }];
    let r = try_apply_usn_incremental(&mut entries, &mut st, 77, 42, &events);
    assert_eq!(r, Ok(()));
    assert_eq!(entries.len(), 5);
}

#[test]
fn rename_of_unknown_reference_synthesizes_an_entry() {
    let mut entries = tree();
    let mut st = state();
    let events = vec![UsnEvent {
        frn: 40,
        parent_frn: 10,
        attrs: 0,
        reason: USN_REASON_RENAME_NEW_NAME,
        name: "moved_in.txt".to_string(),
    }];
    let r = try_apply_usn_incremental(&mut entries, &mut st, 77, 42, &events);
    assert_eq!(r, Ok(()));
    assert_eq!(entries.len(), 6);
    assert_eq!(entries.last().unwrap().path, "C:/docs/moved_in.txt");
}

#[test]
fn events_apply_in_delivered_order() {
    let mut entries = tree();
    let mut st = state();
    let events = vec![
        UsnEvent {
            frn: 50,
            parent_frn: 10,
            attrs: FILE_ATTRIBUTE_DIRECTORY,
            reason: USN_REASON_FILE_CREATE,
            name: "fresh".to_string(),
        },
        UsnEvent {
            frn: 51,
            parent_frn: 50,
            attrs: 0,
            reason: USN_REASON_FILE_CREATE,
            name: "inside.txt".to_string(),
        },
    ];
    let r = try_apply_usn_incremental(&mut entries, &mut st, 77, 42, &events);
    assert_eq!(r, Ok(()));
    assert_eq!(entries.len(), 7);
    assert_eq!(entries.last().unwrap().path, "C:/docs/fresh/inside.txt");
}

#[test]
fn drive_root_recognition() {
    assert_eq!(is_drive_root("C:"), Some('C'));
    assert_eq!(is_drive_root("c:/"), Some('C'));
    assert_eq!(is_drive_root("d:\\"), Some('D'));
    assert_eq!(is_drive_root("C://\\"), Some('C'));
    assert_eq!(is_drive_root("C:/tmp"), None);
    assert_eq!(is_drive_root("1:/"), None);
    assert_eq!(is_drive_root(""), None);
    assert_eq!(is_drive_root("/"), None);
}
