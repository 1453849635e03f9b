//! The entry store's data types: one indexed filesystem object, the
//! per-volume incremental-sync cursor, progress/cancellation handles, and
//! the per-root enumeration diagnostics.

use vstd::prelude::*;

verus! {

use crate::text::{search_key, spec_file_name, lowercase_for_search, file_name_from_normalized_path};

/// One indexed filesystem object.
///
/// `name_lower` and `path_lower` always hold the lowercase search keys of
/// `name` and `path`; `path` is forward-slash normalized and absolute. An
/// `frn` of zero means the source could not provide a file reference number
/// (directory-walk fallback); a `size` of `u64::MAX` means the size was not
/// read from the journal; a `modified_ms` of zero means unresolved.
#[derive(Debug)]
pub struct FileEntry {
    pub name: String,
    pub name_lower: String,
    pub path: String,
    pub path_lower: String,
    pub drive: u8,
    pub frn: u64,
    pub parent_frn: u64,
    pub size: u64,
    pub modified_ms: u64,
    pub is_dir: bool,
    pub is_hidden: bool,
}

impl Clone for FileEntry {
    fn clone(&self) -> (r: Self)
        ensures
            r == *self,
    {
        FileEntry {
            name: self.name.clone(),
            name_lower: self.name_lower.clone(),
            path: self.path.clone(),
            path_lower: self.path_lower.clone(),
            drive: self.drive,
            frn: self.frn,
            parent_frn: self.parent_frn,
            size: self.size,
            modified_ms: self.modified_ms,
            is_dir: self.is_dir,
            is_hidden: self.is_hidden,
        }
    }
}

impl FileEntry {
    /// The lowercase keys are exactly the search-key projections of the name
    /// and the path.
    pub open spec fn wf(&self) -> bool {
        &&& self.name_lower@ == search_key(self.name@)
        &&& self.path_lower@ == search_key(self.path@)
    }

    /// Builds an entry from its source fields, deriving both lowercase
    /// search keys.
    pub fn new(
        name: String,
        path: String,
        drive: u8,
        frn: u64,
        parent_frn: u64,
        size: u64,
        modified_ms: u64,
        is_dir: bool,
        is_hidden: bool,
    ) -> (r: FileEntry)
        ensures
            r.wf(),
            r.name == name,
            r.path == path,
            r.drive == drive,
            r.frn == frn,
            r.parent_frn == parent_frn,
            r.size == size,
            r.modified_ms == modified_ms,
            r.is_dir == is_dir,
            r.is_hidden == is_hidden,
    {
        let name_lower = lowercase_for_search(name.as_str());
        let path_lower = lowercase_for_search(path.as_str());
        FileEntry {
            name,
            name_lower,
            path,
            path_lower,
            drive,
            frn,
            parent_frn,
            size,
            modified_ms,
            is_dir,
            is_hidden,
        }
    }

    /// Builds an entry found by the directory-walk fallback: no file
    /// reference numbers, name derived from the normalized path.
    pub fn from_walk(
        path: String,
        size: u64,
        modified_ms: u64,
        is_dir: bool,
        is_hidden: bool,
    ) -> (r: FileEntry)
        ensures
            r.wf(),
            r.name@ == spec_file_name(path@),
            r.path == path,
            r.drive == 0,
            r.frn == 0,
            r.parent_frn == 0,
            r.size == size,
            r.modified_ms == modified_ms,
            r.is_dir == is_dir,
            r.is_hidden == is_hidden,
    {
        let name = file_name_from_normalized_path(path.as_str());
        FileEntry::new(name, path, 0, 0, 0, size, modified_ms, is_dir, is_hidden)
    }
}

/// Per-volume incremental-sync cursor, created at the end of a successful
/// full enumeration of that volume. A stored `journal_id` that no longer
/// matches the volume's current journal id invalidates the cursor.
#[derive(Clone, Copy, Debug, PartialEq, Eq, Structural)]
pub struct UsnDriveState {
    pub drive: u8,
    pub journal_id: u64,
    pub root_frn: u64,
    pub last_usn: i64,
}

/// A snapshot of the shared indexing counters: whether a build is running,
/// how many items were processed, and the expected total.
#[derive(Clone, Copy, Debug, PartialEq, Eq, Structural)]
pub struct IndexerHandles {
    pub total_files: usize,
    pub is_indexing: bool,
    pub progress: usize,
}

/// How one root was enumerated: by the change journal or by a directory
/// walk.
#[derive(Clone, Copy, Debug, PartialEq, Eq, Structural)]
pub enum IndexRootSource {
    Usn,
    WalkDir,
}

/// Diagnostics for one enumerated root.
#[derive(Clone, Debug)]
pub struct IndexRootStats {
    pub root: String,
    pub source: IndexRootSource,
    pub entries: usize,
    pub duration_ms: u64,
    pub note: Option<String>,
}

/// Diagnostics for one whole index build.
#[derive(Clone, Debug)]
pub struct IndexBuildStats {
    pub roots: Vec<IndexRootStats>,
    pub total_entries: usize,
    pub total_ms: u64,
}

} // verus!
