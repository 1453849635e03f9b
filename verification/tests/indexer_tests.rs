use rustsearch::entry::{FileEntry, UsnDriveState};
use rustsearch::indexer::FileIndexer;

fn entry(name: &str, path: &str) -> FileEntry {
    FileEntry::new(name.to_string(), path.to_string(), 0, 0, 0, 1, 2, false, false)
}

#[test]
fn index_lifecycle_updates_counters_and_snapshot() {
    let mut indexer = FileIndexer::new();
    assert!(!indexer.is_indexing());
    assert_eq!(indexer.progress(), (0, 0));
    assert_eq!(indexer.entry_count(), 0);

    indexer.begin_indexing();
    assert!(indexer.is_indexing());
    let handles = indexer.handles();
    assert!(handles.is_indexing);
    assert_eq!(handles.progress, 0);

    let state = UsnDriveState { drive: b'C', journal_id: 1, root_frn: 5, last_usn: 0 };
    indexer.replace_index(vec![entry("a", "C:/a"), entry("b", "C:/b")], vec![state]);
    assert!(!indexer.is_indexing());
    assert_eq!(indexer.progress(), (2, 2));
    assert_eq!(indexer.entry_count(), 2);
    assert_eq!(indexer.get_entries()[0].name, "a");
    assert_eq!(indexer.get_usn_states().len(), 1);
    assert_eq!(indexer.entries_arc().len(), 2);

    indexer.set_entries_from_cache(vec![entry("c", "C:/c")]);
    assert_eq!(indexer.entry_count(), 1);
    // the cache carries no journal cursors
    assert!(indexer.get_usn_states().is_empty());

    indexer.begin_indexing();
    indexer.stop();
    assert!(!indexer.is_indexing());
}
