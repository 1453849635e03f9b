//! The entry store: an in-memory table of indexed filesystem objects with
//! progress counters, exchanged wholesale between index builds, plus a plain
//! name-substring search. The ranked multi-token search lives in the
//! searcher module.

use vstd::prelude::*;

verus! {

use std::sync::Arc;
use crate::entry::{FileEntry, IndexerHandles, UsnDriveState};
use crate::text::{has_substring, search_key, chars_of, lowercase_for_search, find_substring};

/// Haystack the plain name search reads: the raw name when case-sensitive,
/// the lowercase key otherwise.
pub open spec fn simple_hay(e: FileEntry, case_sensitive: bool) -> Seq<char> {
    if case_sensitive {
        e.name@
    } else {
        e.name_lower@
    }
}

/// The pattern key the plain name search uses.
pub open spec fn simple_key(pattern: Seq<char>, case_sensitive: bool) -> Seq<char> {
    if case_sensitive {
        pattern
    } else {
        search_key(pattern)
    }
}

/// Whether an entry matches the plain name search.
pub open spec fn simple_match(e: FileEntry, key: Seq<char>, case_sensitive: bool) -> bool {
    has_substring(simple_hay(e, case_sensitive), key)
}

/// The in-memory index: the entry table, the per-volume sync cursors, and
/// the progress counters an embedding application polls.
pub struct FileIndexer {
    entries: Vec<FileEntry>,
    usn_states: Vec<UsnDriveState>,
    total_files: usize,
    is_indexing: bool,
    progress: usize,
}

impl FileIndexer {
    /// The entry table.
    pub closed spec fn spec_entries(&self) -> Seq<FileEntry> {
        self.entries@
    }

    /// The per-volume sync cursors.
    pub closed spec fn spec_usn_states(&self) -> Seq<UsnDriveState> {
        self.usn_states@
    }

    /// The counter snapshot.
    pub closed spec fn spec_handles(&self) -> IndexerHandles {
        IndexerHandles {
            total_files: self.total_files,
            is_indexing: self.is_indexing,
            progress: self.progress,
        }
    }

    /// An empty index, not building.
    pub fn new() -> (r: Self)
        ensures
            r.spec_entries() == Seq::<FileEntry>::empty(),
            r.spec_usn_states() == Seq::<UsnDriveState>::empty(),
            r.spec_handles() == (IndexerHandles { total_files: 0, is_indexing: false, progress: 0 }),
    {
        let r = FileIndexer {
            entries: Vec::new(),
            usn_states: Vec::new(),
            total_files: 0,
            is_indexing: false,
            progress: 0,
        };
        proof {
            assert(r.entries@ =~= Seq::<FileEntry>::empty());
            assert(r.usn_states@ =~= Seq::<UsnDriveState>::empty());
        }
        r
    }

    /// Whether a build is in flight.
    pub fn is_indexing(&self) -> (r: bool)
        ensures
            r == self.spec_handles().is_indexing,
    {
        self.is_indexing
    }

    /// The processed count and the expected total.
    pub fn progress(&self) -> (r: (usize, usize))
        ensures
            r.0 == self.spec_handles().progress,
            r.1 == self.spec_handles().total_files,
    {
        (self.progress, self.total_files)
    }

    /// Borrows the entry table.
    pub fn get_entries(&self) -> (r: &Vec<FileEntry>)
        ensures
            r@ == self.spec_entries(),
    {
        &self.entries
    }

    /// How many entries the table holds.
    pub fn entry_count(&self) -> (r: usize)
        ensures
            r == self.spec_entries().len(),
    {
        self.entries.len()
    }

    /// Borrows the per-volume sync cursors.
    pub fn get_usn_states(&self) -> (r: &Vec<UsnDriveState>)
        ensures
            r@ == self.spec_usn_states(),
    {
        &self.usn_states
    }

    /// A shared snapshot of the entry table.
    pub fn entries_arc(&self) -> (r: Arc<Vec<FileEntry>>)
        ensures
            r@ == self.spec_entries(),
    {
        let mut copy: Vec<FileEntry> = Vec::new();
        let mut i: usize = 0;
        while i < self.entries.len()
            invariant
                i <= self.entries@.len(),
                copy@ == self.entries@.take(i as int),
            decreases self.entries@.len() - i,
        {
            copy.push(self.entries[i].clone());
            i = i + 1;
            proof {
                assert(copy@ =~= self.entries@.take(i as int));
            }
        }
        proof {
            assert(self.entries@.take(self.entries@.len() as int) =~= self.entries@);
        }
        Arc::new(copy)
    }

    /// A snapshot of the shared counters.
    pub fn handles(&self) -> (r: IndexerHandles)
        ensures
            r == self.spec_handles(),
    {
        IndexerHandles {
            total_files: self.total_files,
            is_indexing: self.is_indexing,
            progress: self.progress,
        }
    }

    /// Marks a build as started and resets both counters; the entry table is
    /// untouched, so searches keep seeing the old snapshot.
    pub fn begin_indexing(&mut self)
        ensures
            final(self).spec_entries() == old(self).spec_entries(),
            final(self).spec_usn_states() == old(self).spec_usn_states(),
            final(self).spec_handles() == (IndexerHandles {
                total_files: 0,
                is_indexing: true,
                progress: 0,
            }),
    {
        self.is_indexing = true;
        self.progress = 0;
        self.total_files = 0;
    }

    /// Installs a freshly built snapshot with its sync cursors and marks the
    /// build finished with both counters at the new entry count.
    pub fn replace_index(&mut self, all_entries: Vec<FileEntry>, usn_states: Vec<UsnDriveState>)
        ensures
            final(self).spec_entries() == all_entries@,
            final(self).spec_usn_states() == usn_states@,
            final(self).spec_handles() == (IndexerHandles {
                total_files: all_entries@.len() as usize,
                is_indexing: false,
                progress: all_entries@.len() as usize,
            }),
    {
        let count = all_entries.len();
        self.entries = all_entries;
        self.usn_states = usn_states;
        self.total_files = count;
        self.progress = count;
        self.is_indexing = false;
    }

    /// Installs entries loaded from the cache. The cache stores no journal
    /// cursors, so the sync states are cleared.
    pub fn set_entries_from_cache(&mut self, entries: Vec<FileEntry>)
        ensures
            final(self).spec_entries() == entries@,
            final(self).spec_usn_states() == Seq::<UsnDriveState>::empty(),
            final(self).spec_handles() == (IndexerHandles {
                total_files: entries@.len() as usize,
                is_indexing: false,
                progress: entries@.len() as usize,
            }),
    {
        let count = entries.len();
        self.entries = entries;
        self.usn_states = Vec::new();
        proof {
            assert(self.usn_states@ =~= Seq::<UsnDriveState>::empty());
        }
        self.total_files = count;
        self.progress = count;
        self.is_indexing = false;
    }

    /// Replaces the stored sync cursors.
    pub fn set_usn_states(&mut self, usn_states: Vec<UsnDriveState>)
        ensures
            final(self).spec_entries() == old(self).spec_entries(),
            final(self).spec_usn_states() == usn_states@,
            final(self).spec_handles() == old(self).spec_handles(),
    {
        self.usn_states = usn_states;
    }

    /// Plain name search: returns, in table order, the first matches whose
    /// name (or lowercase name key) contains the pattern, capped at
    /// `max_results`.
    pub fn search(&self, pattern: &str, case_sensitive: bool, max_results: usize) -> (r: Vec<
        FileEntry,
    >)
        ensures
            pattern@.len() == 0 ==> r@ == Seq::<FileEntry>::empty(),
            pattern@.len() > 0 ==> exists|n: int|
                {
                    &&& 0 <= n <= self.spec_entries().len()
                    &&& r@ == self.spec_entries().take(n).filter(
                        |e: FileEntry| simple_match(e, simple_key(pattern@, case_sensitive), case_sensitive),
                    )
                    &&& (r@.len() == max_results || n == self.spec_entries().len())
                    &&& r@.len() <= max_results
                },
    {
        let mut results: Vec<FileEntry> = Vec::new();
        if pattern.is_empty() {
            proof {
                assert(results@ =~= Seq::<FileEntry>::empty());
            }
            return results;
        }
        let ghost pred = |e: FileEntry|
            simple_match(e, simple_key(pattern@, case_sensitive), case_sensitive);
        if max_results == 0 {
            proof {
                reveal(Seq::filter);
                assert(self.spec_entries().take(0).filter(pred) =~= Seq::<FileEntry>::empty());
                assert(results@ =~= Seq::<FileEntry>::empty());
            }
            return results;
        }
        let key_string = if case_sensitive {
            pattern.to_owned()
        } else {
            lowercase_for_search(pattern)
        };
        let key = chars_of(key_string.as_str());
        let mut i: usize = 0;
        proof {
            reveal(Seq::filter);
            assert(self.spec_entries().take(0).filter(pred) =~= Seq::<FileEntry>::empty());
            assert(results@ =~= self.spec_entries().take(0).filter(pred));
        }
        while i < self.entries.len()
            invariant
                i <= self.entries@.len(),
                max_results > 0,
                pattern@.len() > 0,
                key@ == simple_key(pattern@, case_sensitive),
                pred == (|e: FileEntry|
                    simple_match(e, simple_key(pattern@, case_sensitive), case_sensitive)),
                results@ == self.entries@.take(i as int).filter(pred),
                results@.len() < max_results,
            decreases self.entries@.len() - i,
        {
            let e = &self.entries[i];
            let hay = if case_sensitive {
                chars_of(e.name.as_str())
            } else {
                chars_of(e.name_lower.as_str())
            };
            let ghost prefix = self.entries@.take(i as int);
            let matched = find_substring(&hay, &key).is_some();
            proof {
                reveal(Seq::filter);
                assert(self.entries@.take(i + 1).drop_last() =~= prefix);
                assert(self.entries@.take(i + 1).last() == self.entries@[i as int]);
                assert(hay@ == simple_hay(self.entries@[i as int], case_sensitive));
                assert(matched == pred(self.entries@[i as int]));
            }
            if matched {
                results.push(e.clone());
            }
            i = i + 1;
            proof {
                assert(results@ =~= self.entries@.take(i as int).filter(pred));
            }
            if results.len() >= max_results {
                proof {
                    assert(0 <= i as int <= self.spec_entries().len());
                    assert(results@ == self.spec_entries().take(i as int).filter(pred));
                    assert(results@.len() == max_results);
                }
                return results;
            }
        }
        proof {
            assert(self.entries@.take(self.entries@.len() as int) =~= self.entries@);
        }
        results
    }

    /// Requests cooperative cancellation of a running build.
    pub fn stop(&mut self)
        ensures
            final(self).spec_entries() == old(self).spec_entries(),
            final(self).spec_usn_states() == old(self).spec_usn_states(),
            final(self).spec_handles() == (IndexerHandles {
                total_files: old(self).spec_handles().total_files,
                is_indexing: false,
                progress: old(self).spec_handles().progress,
            }),
    {
        self.is_indexing = false;
    }
}

} // verus!
