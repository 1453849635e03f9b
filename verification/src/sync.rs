//! The incremental syncer: turns a batch of change-journal events
//! (create, delete, rename) into in-place mutations of the entry table,
//! cascading over renamed or deleted directory subtrees, with the
//! `frn -> index` lookup rebuilt after every structural mutation.

use vstd::prelude::*;

verus! {

use std::collections::HashMap;
use crate::codec::EngineError;
use crate::entry::{FileEntry, UsnDriveState};
use crate::text::{
    search_key,
    matches_at,
    chars_of,
    string_from_range,
    starts_with_chars,
    push_char,
};

pub const USN_REASON_FILE_CREATE: u32 = 0x100;

pub const USN_REASON_FILE_DELETE: u32 = 0x200;

pub const USN_REASON_RENAME_OLD_NAME: u32 = 0x1000;

pub const USN_REASON_RENAME_NEW_NAME: u32 = 0x2000;

pub const FILE_ATTRIBUTE_HIDDEN: u32 = 0x2;

pub const FILE_ATTRIBUTE_SYSTEM: u32 = 0x4;

pub const FILE_ATTRIBUTE_DIRECTORY: u32 = 0x10;

/// One decoded change-journal event.
#[derive(Clone, Debug)]
pub struct UsnEvent {
    pub frn: u64,
    pub parent_frn: u64,
    pub attrs: u32,
    pub reason: u32,
    pub name: String,
}

/// The directory bit of a record's attributes.
pub open spec fn attrs_is_dir(attrs: u32) -> bool {
    attrs & FILE_ATTRIBUTE_DIRECTORY != 0
}

/// The hidden-or-system bits of a record's attributes.
pub open spec fn attrs_is_hidden(attrs: u32) -> bool {
    attrs & (FILE_ATTRIBUTE_HIDDEN | FILE_ATTRIBUTE_SYSTEM) != 0
}

/// `pre` is a prefix of `s`.
pub open spec fn starts_with(s: Seq<char>, pre: Seq<char>) -> bool {
    matches_at(s, pre, 0)
}

/// The `frn -> index` lookup over the first `n` entries of one volume;
/// entries without a reference number are not tracked, later duplicates win.
pub open spec fn spec_frn_map(entries: Seq<FileEntry>, drive: u8, n: int) -> Map<u64, usize>
    decreases n,
{
    if n <= 0 {
        Map::empty()
    } else {
        let m = spec_frn_map(entries, drive, n - 1);
        let e = entries[n - 1];
        if e.drive == drive && e.frn != 0 {
            m.insert(e.frn, (n - 1) as usize)
        } else {
            m
        }
    }
}

/// Every tracked reference number points to an entry of the volume that
/// carries it.
pub proof fn lemma_frn_map_valid(entries: Seq<FileEntry>, drive: u8, n: int)
    requires
        0 <= n <= entries.len(),
        n <= usize::MAX as int,
    ensures
        forall|f: u64|
            #[trigger] spec_frn_map(entries, drive, n).dom().contains(f) ==> f != 0 && (
            spec_frn_map(entries, drive, n)[f] as int) < n && entries[spec_frn_map(
                entries,
                drive,
                n,
            )[f] as int].frn == f && entries[spec_frn_map(entries, drive, n)[f] as int].drive
                == drive,
    decreases n,
{
    if n > 0 {
        lemma_frn_map_valid(entries, drive, n - 1);
        let e = entries[n - 1];
        assert forall|f: u64| #[trigger] spec_frn_map(entries, drive, n).dom().contains(f) implies f
            != 0 && (spec_frn_map(entries, drive, n)[f] as int) < n && entries[spec_frn_map(
            entries,
            drive,
            n,
        )[f] as int].frn == f && entries[spec_frn_map(entries, drive, n)[f] as int].drive
            == drive by {
            if e.drive == drive && e.frn != 0 {
                assert(spec_frn_map(entries, drive, n) == spec_frn_map(entries, drive, n
                    - 1).insert(e.frn, (n - 1) as usize));
                if f == e.frn {
                    assert(spec_frn_map(entries, drive, n - 1).insert(e.frn, (n - 1) as usize)[f]
                        == (n - 1) as usize);
                } else {
                    assert(spec_frn_map(entries, drive, n - 1).insert(e.frn, (n - 1) as usize)[f]
                        == spec_frn_map(entries, drive, n - 1)[f]);
                    assert(spec_frn_map(entries, drive, n - 1).dom().contains(f));
                    assert((spec_frn_map(entries, drive, n - 1)[f] as int) < n - 1);
                }
            } else {
                assert(spec_frn_map(entries, drive, n) == spec_frn_map(entries, drive, n - 1));
                assert(spec_frn_map(entries, drive, n - 1).dom().contains(f));
                assert((spec_frn_map(entries, drive, n - 1)[f] as int) < n - 1);
            }
        }
    } else {
        assert(spec_frn_map(entries, drive, n) == Map::<u64, usize>::empty());
        assert(spec_frn_map(entries, drive, n).dom() =~= Set::<u64>::empty());
        assert(forall|f: u64| !(#[trigger] spec_frn_map(entries, drive, n).dom().contains(f)));
    }
}

/// The lookup depends only on each entry's volume and reference number.
pub proof fn lemma_frn_map_congruent(a: Seq<FileEntry>, b: Seq<FileEntry>, drive: u8, n: int)
    requires
        0 <= n <= a.len(),
        n <= b.len(),
        forall|i: int| 0 <= i < n ==> (#[trigger] a[i]).frn == b[i].frn && a[i].drive == b[i].drive,
    ensures
        spec_frn_map(a, drive, n) == spec_frn_map(b, drive, n),
    decreases n,
{
    if n > 0 {
        lemma_frn_map_congruent(a, b, drive, n - 1);
    }
}

/// Builds the `frn -> index` lookup for one volume.
pub fn build_frn_map(entries: &Vec<FileEntry>, drive: u8) -> (m: HashMap<u64, usize>)
    ensures
        m@ == spec_frn_map(entries@, drive, entries@.len() as int),
{
    let mut m: HashMap<u64, usize> = HashMap::new();
    let mut i: usize = 0;
    while i < entries.len()
        invariant
            i <= entries@.len(),
            m@ == spec_frn_map(entries@, drive, i as int),
        decreases entries@.len() - i,
    {
        let e = &entries[i];
        if e.drive == drive && e.frn != 0 {
            m.insert(e.frn, i);
        }
        i = i + 1;
    }
    m
}

/// The root path of a volume: its letter, a colon, a slash.
pub open spec fn root_path_chars(drive: u8) -> Seq<char> {
    seq![drive as char, ':', '/']
}

/// Builds the root path of a volume.
pub fn drive_root_path(drive: u8) -> (r: String)
    ensures
        r@ == root_path_chars(drive),
{
    let mut s = String::new();
    push_char(&mut s, drive as char);
    push_char(&mut s, ':');
    push_char(&mut s, '/');
    proof {
        assert(s@ =~= root_path_chars(drive));
    }
    s
}

/// A directory path as a prefix: with exactly one trailing slash appended
/// unless one is already there.
pub open spec fn spec_dir_prefix(p: Seq<char>) -> Seq<char> {
    if p.len() > 0 && p[p.len() - 1] == '/' {
        p
    } else {
        p.push('/')
    }
}

/// Builds the subtree prefix of a directory path.
pub fn dir_prefix_string(p: &String) -> (r: String)
    ensures
        r@ == spec_dir_prefix(p@),
{
    let pc = chars_of(p.as_str());
    if pc.len() > 0 && pc[pc.len() - 1] == '/' {
        p.clone()
    } else {
        let mut s = p.clone();
        push_char(&mut s, '/');
        s
    }
}

/// The path a child gets: its parent's path (the volume root when the
/// parent is the root reference), a separating slash, and its name; `None`
/// when the parent is not known.
pub open spec fn spec_compose_path(
    entries: Seq<FileEntry>,
    drive: u8,
    root_frn: u64,
    parent_frn: u64,
    name: Seq<char>,
) -> Option<Seq<char>> {
    let m = spec_frn_map(entries, drive, entries.len() as int);
    if parent_frn == root_frn {
        Some(spec_dir_prefix(root_path_chars(drive)) + name)
    } else if m.dom().contains(parent_frn) {
        Some(spec_dir_prefix(entries[m[parent_frn] as int].path@) + name)
    } else {
        None
    }
}

/// Composes the path of a child from its parent's resolved path.
pub fn compose_path(
    entries: &Vec<FileEntry>,
    frn_to_idx: &HashMap<u64, usize>,
    drive: u8,
    root_frn: u64,
    parent_frn: u64,
    name: &str,
) -> (r: Option<String>)
    requires
        frn_to_idx@ == spec_frn_map(entries@, drive, entries@.len() as int),
    ensures
        match r {
            Some(p) => spec_compose_path(entries@, drive, root_frn, parent_frn, name@) == Some(p@),
            None => spec_compose_path(entries@, drive, root_frn, parent_frn, name@) is None,
        },
{
    let total = entries.len();
    let base: String = if parent_frn == root_frn {
        drive_root_path(drive)
    } else {
        match frn_to_idx.get(&parent_frn) {
            Some(idx_ref) => {
                let idx = *idx_ref;
                proof {
                    assert(total == entries@.len());
                    lemma_frn_map_valid(entries@, drive, entries@.len() as int);
                }
                entries[idx].path.clone()
            },
            None => {
                return None;
            },
        }
    };
    let mut out = dir_prefix_string(&base);
    let nc = chars_of(name);
    let ns = string_from_range(&nc, 0, nc.len());
    out.append(ns.as_str());
    proof {
        assert(nc@.subrange(0, nc@.len() as int) =~= name@);
    }
    Some(out)
}

/// Entries kept by a subtree removal: those on another volume or whose path
/// does not lie under the prefix.
pub open spec fn keep_pred(drive: u8, prefix: Seq<char>) -> spec_fn(FileEntry) -> bool {
    |e: FileEntry| !(e.drive == drive && starts_with(e.path@, prefix))
}

/// Removes the entry at `idx` and rebuilds the volume's lookup.
pub fn remove_entry_by_idx(
    entries: &mut Vec<FileEntry>,
    idx: usize,
    drive: u8,
    frn_to_idx: &mut HashMap<u64, usize>,
)
    requires
        idx < old(entries)@.len(),
    ensures
        final(entries)@ == old(entries)@.remove(idx as int),
        final(frn_to_idx)@ == spec_frn_map(final(entries)@, drive, final(entries)@.len() as int),
{
    entries.remove(idx);
    *frn_to_idx = build_frn_map(entries, drive);
}

/// Removes every entry of the volume whose path lies under the prefix and
/// rebuilds the lookup: the delete cascade over a removed directory's
/// subtree.
pub fn remove_entries_by_prefix(
    entries: &mut Vec<FileEntry>,
    drive: u8,
    prefix: &str,
    frn_to_idx: &mut HashMap<u64, usize>,
)
    ensures
        final(entries)@ == old(entries)@.filter(keep_pred(drive, prefix@)),
        final(frn_to_idx)@ == spec_frn_map(final(entries)@, drive, final(entries)@.len() as int),
{
    broadcast use vstd::seq_lib::group_filter_ensures;

    let pc = chars_of(prefix);
    let mut kept: Vec<FileEntry> = Vec::new();
    let ghost pred = keep_pred(drive, prefix@);
    let mut i: usize = 0;
    proof {
        reveal(Seq::filter);
        assert(kept@ =~= old(entries)@.take(0).filter(pred));
    }
    while i < entries.len()
        invariant
            i <= entries@.len(),
            entries@ == old(entries)@,
            pc@ == prefix@,
            pred == keep_pred(drive, prefix@),
            kept@ == entries@.take(i as int).filter(pred),
        decreases entries@.len() - i,
    {
        let e = &entries[i];
        let hay = chars_of(e.path.as_str());
        let matched = e.drive == drive && starts_with_chars(&hay, &pc);
        proof {
            reveal(Seq::filter);
            assert(entries@.take(i + 1).drop_last() =~= entries@.take(i as int));
            assert(entries@.take(i + 1).last() == entries@[i as int]);
            assert(pred(entries@[i as int]) == !matched);
        }
        if !matched {
            kept.push(e.clone());
        }
        i = i + 1;
        proof {
            assert(kept@ =~= entries@.take(i as int).filter(pred));
        }
    }
    proof {
        assert(entries@.take(entries@.len() as int) =~= entries@);
    }
    *entries = kept;
    *frn_to_idx = build_frn_map(entries, drive);
}

/// The delete cascade is exact: the surviving table holds no entry of the
/// volume whose path lies under the removed prefix, and holds every entry
/// that was not under it, in order.
pub proof fn lemma_delete_cascade(entries: Seq<FileEntry>, drive: u8, prefix: Seq<char>)
    ensures
        forall|k: int|
            0 <= k < entries.filter(keep_pred(drive, prefix)).len() ==> !((#[trigger] entries.filter(
                keep_pred(drive, prefix),
            )[k]).drive == drive && starts_with(
                entries.filter(keep_pred(drive, prefix))[k].path@,
                prefix,
            )),
        forall|k: int|
            0 <= k < entries.len() && !((#[trigger] entries[k]).drive == drive && starts_with(
                entries[k].path@,
                prefix,
            )) ==> entries.filter(keep_pred(drive, prefix)).contains(entries[k]),
{
    broadcast use vstd::seq_lib::group_filter_ensures;

    assert forall|k: int|
        0 <= k < entries.len() && !((#[trigger] entries[k]).drive == drive && starts_with(
            entries[k].path@,
            prefix,
        )) implies entries.filter(keep_pred(drive, prefix)).contains(entries[k]) by {
        assert(keep_pred(drive, prefix)(entries[k]));
        entries.lemma_filter_contains(keep_pred(drive, prefix), k);
    }
    assert forall|k: int|
        0 <= k < entries.filter(keep_pred(drive, prefix)).len() implies !((
    #[trigger] entries.filter(keep_pred(drive, prefix))[k]).drive == drive && starts_with(
        entries.filter(keep_pred(drive, prefix))[k].path@,
        prefix,
    )) by {
        entries.lemma_filter_pred(keep_pred(drive, prefix), k);
    }
}

/// The field relation of one entry moved by a directory rename: the old
/// prefix of its path is replaced, the lowercase path key is recomputed,
/// everything else is kept.
pub open spec fn moved_rel(o: FileEntry, f: FileEntry, from: Seq<char>, to: Seq<char>) -> bool {
    &&& f.path@ == to + o.path@.skip(from.len() as int)
    &&& f.path_lower@ == search_key(f.path@)
    &&& f.name == o.name
    &&& f.name_lower == o.name_lower
    &&& f.drive == o.drive
    &&& f.frn == o.frn
    &&& f.parent_frn == o.parent_frn
    &&& f.size == o.size
    &&& f.modified_ms == o.modified_ms
    &&& f.is_dir == o.is_dir
    &&& f.is_hidden == o.is_hidden
}

/// The elementwise relation of a whole table across a directory rename.
pub open spec fn moved_all_rel(
    a: Seq<FileEntry>,
    b: Seq<FileEntry>,
    drive: u8,
    from: Seq<char>,
    to: Seq<char>,
) -> bool {
    &&& b.len() == a.len()
    &&& forall|k: int|
        0 <= k < a.len() ==> if (#[trigger] a[k]).drive == drive && starts_with(a[k].path@, from) {
            moved_rel(a[k], #[trigger] b[k], from, to)
        } else {
            b[k] == a[k]
        }
}

/// Rewrites the path prefix of every entry of the volume under `from_prefix`
/// to `to_prefix`: the rename cascade over a moved directory's subtree.
/// Positions, reference numbers and names are untouched.
pub fn update_entries_prefix(
    entries: &mut Vec<FileEntry>,
    drive: u8,
    from_prefix: &str,
    to_prefix: &str,
)
    ensures
        moved_all_rel(old(entries)@, final(entries)@, drive, from_prefix@, to_prefix@),
{
    let fc = chars_of(from_prefix);
    let mut i: usize = 0;
    while i < entries.len()
        invariant
            i <= entries@.len(),
            entries@.len() == old(entries)@.len(),
            fc@ == from_prefix@,
            forall|k: int|
                i <= k < entries@.len() ==> #[trigger] entries@[k] == old(entries)@[k],
            forall|k: int|
                0 <= k < i ==> if (#[trigger] old(entries)@[k]).drive == drive && starts_with(
                    old(entries)@[k].path@,
                    from_prefix@,
                ) {
                    moved_rel(old(entries)@[k], #[trigger] entries@[k], from_prefix@, to_prefix@)
                } else {
                    entries@[k] == old(entries)@[k]
                },
        decreases entries@.len() - i,
    {
        let hay = chars_of(entries[i].path.as_str());
        if entries[i].drive == drive && starts_with_chars(&hay, &fc) {
            let rest = string_from_range(&hay, fc.len(), hay.len());
            let mut new_path = to_prefix.to_owned();
            new_path.append(rest.as_str());
            let new_lower = crate::text::lowercase_for_search(new_path.as_str());
            proof {
                assert(hay@.subrange(fc@.len() as int, hay@.len() as int) =~= entries@[i as int].path@.skip(
                    from_prefix@.len() as int,
                ));
            }
            let old_entry = &entries[i];
            let updated = FileEntry {
                name: old_entry.name.clone(),
                name_lower: old_entry.name_lower.clone(),
                path: new_path,
                path_lower: new_lower,
                drive: old_entry.drive,
                frn: old_entry.frn,
                parent_frn: old_entry.parent_frn,
                size: old_entry.size,
                modified_ms: old_entry.modified_ms,
                is_dir: old_entry.is_dir,
                is_hidden: old_entry.is_hidden,
            };
            entries[i] = updated;
        }
        i = i + 1;
    }
}

/// The field relation of an entry renamed or created by a journal event:
/// name and path from the event, lowercase keys recomputed, flags from the
/// event's attributes, size unknown, modified time unresolved.
pub open spec fn event_entry_rel(
    e: FileEntry,
    ev_name: Seq<char>,
    path: Seq<char>,
    drive: u8,
    frn: u64,
    parent_frn: u64,
    attrs: u32,
) -> bool {
    &&& e.name@ == ev_name
    &&& e.name_lower@ == search_key(ev_name)
    &&& e.path@ == path
    &&& e.path_lower@ == search_key(path)
    &&& e.drive == drive
    &&& e.frn == frn
    &&& e.parent_frn == parent_frn
    &&& e.size == u64::MAX
    &&& e.modified_ms == 0
    &&& e.is_dir == attrs_is_dir(attrs)
    &&& e.is_hidden == attrs_is_hidden(attrs)
}

/// The field relation of the entry rewritten in place by a rename event:
/// identity and size kept, the rest from the event.
pub open spec fn renamed_entry_rel(
    o: FileEntry,
    f: FileEntry,
    ev_name: Seq<char>,
    new_path: Seq<char>,
    parent_frn: u64,
    attrs: u32,
) -> bool {
    &&& f.name@ == ev_name
    &&& f.name_lower@ == search_key(ev_name)
    &&& f.path@ == new_path
    &&& f.path_lower@ == search_key(new_path)
    &&& f.drive == o.drive
    &&& f.frn == o.frn
    &&& f.parent_frn == parent_frn
    &&& f.size == o.size
    &&& f.modified_ms == o.modified_ms
    &&& f.is_dir == attrs_is_dir(attrs)
    &&& f.is_hidden == attrs_is_hidden(attrs)
}

/// What one journal event does to the entry table.
///
/// A delete removes the known entry and, for a directory, its whole
/// subtree. A rename rewrites the known entry in place and relocates its
/// subtree, or synthesizes a new entry when the reference is unknown; it is
/// dropped when the parent cannot be resolved. A create inserts a new entry
/// unless the reference is already known or the parent cannot be resolved.
/// Any other event leaves the table unchanged.
pub open spec fn event_rel(
    pre: Seq<FileEntry>,
    post: Seq<FileEntry>,
    ev: UsnEvent,
    drive: u8,
    root_frn: u64,
) -> bool {
    let m = spec_frn_map(pre, drive, pre.len() as int);
    if ev.reason & USN_REASON_FILE_DELETE != 0 {
        if !m.dom().contains(ev.frn) {
            post == pre
        } else {
            let idx = m[ev.frn] as int;
            let victim = pre[idx];
            let mid = pre.remove(idx);
            if victim.is_dir && victim.path@.len() > 0 {
                post == mid.filter(keep_pred(drive, spec_dir_prefix(victim.path@)))
            } else {
                post == mid
            }
        }
    } else if ev.reason & USN_REASON_RENAME_NEW_NAME != 0 {
        match spec_compose_path(pre, drive, root_frn, ev.parent_frn, ev.name@) {
            Some(new_path) => {
                if m.dom().contains(ev.frn) {
                    let idx = m[ev.frn] as int;
                    let old_e = pre[idx];
                    exists|mid: Seq<FileEntry>|
                        #![auto]
                        {
                            &&& mid.len() == pre.len()
                            &&& renamed_entry_rel(
                                old_e,
                                mid[idx],
                                ev.name@,
                                new_path,
                                ev.parent_frn,
                                ev.attrs,
                            )
                            &&& forall|k: int| 0 <= k < pre.len() && k != idx ==> mid[k] == pre[k]
                            &&& if old_e.is_dir && old_e.path@.len() > 0 && old_e.path@ != new_path {
                                moved_all_rel(
                                    mid,
                                    post,
                                    drive,
                                    spec_dir_prefix(old_e.path@),
                                    spec_dir_prefix(new_path),
                                )
                            } else {
                                post == mid
                            }
                        }
                } else {
                    exists|e: FileEntry|
                        #![auto]
                        event_entry_rel(e, ev.name@, new_path, drive, ev.frn, ev.parent_frn, ev.attrs)
                            && post == pre.push(e)
                }
            },
            None => post == pre,
        }
    } else if ev.reason & USN_REASON_FILE_CREATE != 0 {
        if m.dom().contains(ev.frn) {
            post == pre
        } else {
            match spec_compose_path(pre, drive, root_frn, ev.parent_frn, ev.name@) {
                Some(new_path) => exists|e: FileEntry|
                    #![auto]
                    event_entry_rel(e, ev.name@, new_path, drive, ev.frn, ev.parent_frn, ev.attrs)
                        && post == pre.push(e),
                None => post == pre,
            }
        }
    } else {
        post == pre
    }
}

/// The table `cur` arises from `start` by applying the first `j` events in
/// order.
pub open spec fn events_applied(
    start: Seq<FileEntry>,
    cur: Seq<FileEntry>,
    events: Seq<UsnEvent>,
    j: int,
    drive: u8,
    root_frn: u64,
) -> bool
    decreases j,
{
    if j <= 0 {
        cur == start
    } else {
        exists|mid: Seq<FileEntry>|
            #![trigger event_rel(mid, cur, events[j - 1], drive, root_frn)]
            events_applied(start, mid, events, j - 1, drive, root_frn) && event_rel(
                mid,
                cur,
                events[j - 1],
                drive,
                root_frn,
            )
    }
}

/// Applies one journal event to the table, keeping the volume's lookup in
/// step.
pub fn apply_event(
    entries: &mut Vec<FileEntry>,
    frn_to_idx: &mut HashMap<u64, usize>,
    state: &UsnDriveState,
    ev: &UsnEvent,
)
    requires
        old(frn_to_idx)@ == spec_frn_map(old(entries)@, state.drive, old(entries)@.len() as int),
    ensures
        final(frn_to_idx)@ == spec_frn_map(
            final(entries)@,
            state.drive,
            final(entries)@.len() as int,
        ),
        event_rel(old(entries)@, final(entries)@, *ev, state.drive, state.root_frn),
{
    let drive = state.drive;
    let total = entries.len();
    proof {
        lemma_frn_map_valid(entries@, drive, entries@.len() as int);
    }
    if ev.reason & USN_REASON_FILE_DELETE != 0 {
        let idx: usize = match frn_to_idx.get(&ev.frn) {
            Some(i) => *i,
            None => {
                return ;
            },
        };
        let victim_is_dir = entries[idx].is_dir;
        let old_path = entries[idx].path.clone();
        remove_entry_by_idx(entries, idx, drive, frn_to_idx);
        if victim_is_dir && !old_path.as_str().is_empty() {
            let prefix = dir_prefix_string(&old_path);
            remove_entries_by_prefix(entries, drive, prefix.as_str(), frn_to_idx);
        }
        return ;
    }
    if ev.reason & USN_REASON_RENAME_NEW_NAME != 0 {
        let composed = compose_path(entries, frn_to_idx, drive, state.root_frn, ev.parent_frn, ev.name.as_str());
        let new_path = match composed {
            Some(p) => p,
            None => {
                return ;
            },
        };
        let known: Option<usize> = match frn_to_idx.get(&ev.frn) {
            Some(i) => Some(*i),
            None => None,
        };
        let ghost npv = new_path@;
        match known {
            Some(idx) => {
                let old_e = &entries[idx];
                let old_is_dir = old_e.is_dir;
                let old_path = old_e.path.clone();
                let old_drive = old_e.drive;
                let old_frn = old_e.frn;
                let old_size = old_e.size;
                let old_modified = old_e.modified_ms;
                let updated = FileEntry::new(
                    ev.name.clone(),
                    new_path.clone(),
                    old_drive,
                    old_frn,
                    ev.parent_frn,
                    old_size,
                    old_modified,
                    ev.attrs & FILE_ATTRIBUTE_DIRECTORY != 0,
                    ev.attrs & (FILE_ATTRIBUTE_HIDDEN | FILE_ATTRIBUTE_SYSTEM) != 0,
                );
                entries[idx] = updated;
                let ghost mid = entries@;
                proof {
                    assert forall|i: int| 0 <= i < entries@.len() implies (
                    #[trigger] old(entries)@[i]).frn == entries@[i].frn && old(entries)@[i].drive
                        == entries@[i].drive by {}
                    lemma_frn_map_congruent(
                        old(entries)@,
                        entries@,
                        drive,
                        entries@.len() as int,
                    );
                }
                let changed = !old_path.eq(&new_path);
                if old_is_dir && !old_path.as_str().is_empty() && changed {
                    let old_prefix = dir_prefix_string(&old_path);
                    let new_prefix = dir_prefix_string(&new_path);
                    update_entries_prefix(
                        entries,
                        drive,
                        old_prefix.as_str(),
                        new_prefix.as_str(),
                    );
                    proof {
                        assert forall|i: int| 0 <= i < entries@.len() implies (
                        #[trigger] mid[i]).frn == entries@[i].frn && mid[i].drive
                            == entries@[i].drive by {}
                        lemma_frn_map_congruent(mid, entries@, drive, entries@.len() as int);
                    }
                }
                proof {
                    let pre = old(entries)@;
                    let old_entry = pre[idx as int];
                    assert(renamed_entry_rel(
                        old_entry,
                        mid[idx as int],
                        ev.name@,
                        npv,
                        ev.parent_frn,
                        ev.attrs,
                    ));
                    assert(mid.len() == pre.len() && forall|k: int|
                        0 <= k < pre.len() && k != idx ==> #[trigger] mid[k] == pre[k]);
                    assert(event_rel(pre, entries@, *ev, drive, state.root_frn));
                }
            },
            None => {
                let e = FileEntry::new(
                    ev.name.clone(),
                    new_path,
                    drive,
                    ev.frn,
                    ev.parent_frn,
                    u64::MAX,
                    0,
                    ev.attrs & FILE_ATTRIBUTE_DIRECTORY != 0,
                    ev.attrs & (FILE_ATTRIBUTE_HIDDEN | FILE_ATTRIBUTE_SYSTEM) != 0,
                );
                let ghost pre = entries@;
                let ghost ee = e;
                entries.push(e);
                if ev.frn != 0 {
                    frn_to_idx.insert(ev.frn, total);
                }
                proof {
                    lemma_frn_map_congruent(pre, entries@, drive, pre.len() as int);
                    assert(spec_frn_map(entries@, drive, entries@.len() as int)
                        == if entries@[pre.len() as int].drive == drive
                        && entries@[pre.len() as int].frn != 0 {
                        spec_frn_map(entries@, drive, pre.len() as int).insert(
                            entries@[pre.len() as int].frn,
                            pre.len() as usize,
                        )
                    } else {
                        spec_frn_map(entries@, drive, pre.len() as int)
                    });
                    assert(event_entry_rel(ee, ev.name@, npv, drive, ev.frn, ev.parent_frn, ev.attrs));
                    assert(entries@ == pre.push(ee));
                    assert(event_rel(pre, entries@, *ev, drive, state.root_frn));
                }
            },
        }
        return ;
    }
    if ev.reason & USN_REASON_FILE_CREATE != 0 {
        if frn_to_idx.contains_key(&ev.frn) {
            return ;
        }
        let composed = compose_path(entries, frn_to_idx, drive, state.root_frn, ev.parent_frn, ev.name.as_str());
        let new_path = match composed {
            Some(p) => p,
            None => {
                return ;
            },
        };
        let ghost npv = new_path@;
        let e = FileEntry::new(
            ev.name.clone(),
            new_path,
            drive,
            ev.frn,
            ev.parent_frn,
            u64::MAX,
            0,
            ev.attrs & FILE_ATTRIBUTE_DIRECTORY != 0,
            ev.attrs & (FILE_ATTRIBUTE_HIDDEN | FILE_ATTRIBUTE_SYSTEM) != 0,
        );
        let ghost pre = entries@;
        let ghost ee = e;
        entries.push(e);
        if ev.frn != 0 {
            frn_to_idx.insert(ev.frn, total);
        }
        proof {
            lemma_frn_map_congruent(pre, entries@, drive, pre.len() as int);
            assert(spec_frn_map(entries@, drive, entries@.len() as int)
                == if entries@[pre.len() as int].drive == drive && entries@[pre.len() as int].frn
                != 0 {
                spec_frn_map(entries@, drive, pre.len() as int).insert(
                    entries@[pre.len() as int].frn,
                    pre.len() as usize,
                )
            } else {
                spec_frn_map(entries@, drive, pre.len() as int)
            });
            assert(event_entry_rel(ee, ev.name@, npv, drive, ev.frn, ev.parent_frn, ev.attrs));
            assert(entries@ == pre.push(ee));
            assert(event_rel(pre, entries@, *ev, drive, state.root_frn));
        }
        return ;
    }
}

/// Applies a batch of journal events to the entry table, in the order they
/// were delivered.
pub fn apply_events_for_drive(
    entries: &mut Vec<FileEntry>,
    state: &UsnDriveState,
    events: &Vec<UsnEvent>,
)
    ensures
        events_applied(
            old(entries)@,
            final(entries)@,
            events@,
            events@.len() as int,
            state.drive,
            state.root_frn,
        ),
{
    let ghost start = entries@;
    let mut frn_to_idx = build_frn_map(entries, state.drive);
    let mut j: usize = 0;
    while j < events.len()
        invariant
            j <= events@.len(),
            frn_to_idx@ == spec_frn_map(entries@, state.drive, entries@.len() as int),
            events_applied(start, entries@, events@, j as int, state.drive, state.root_frn),
        decreases events@.len() - j,
    {
        let ghost before = entries@;
        apply_event(entries, &mut frn_to_idx, state, &events[j]);
        j = j + 1;
        proof {
            assert(events_applied(start, before, events@, j - 1, state.drive, state.root_frn)
                && event_rel(before, entries@, events@[j - 1], state.drive, state.root_frn));
            assert(events_applied(
                start,
                entries@,
                events@,
                j as int,
                state.drive,
                state.root_frn,
            )) by {
                reveal_with_fuel(events_applied, 2);
                assert(events_applied(start, before, events@, j - 1, state.drive, state.root_frn));
            }
        }
    }
}

/// Incremental sync of one volume from already-read journal events.
///
/// A mismatch between the stored journal id and the volume's current one
/// invalidates the cursor: the call reports `JournalInvalidated` and touches
/// neither the entry table nor the cursor, and the caller must fully
/// re-enumerate the volume. Otherwise the events are applied in order and
/// the cursor advances to the given position.
pub fn try_apply_usn_incremental(
    entries: &mut Vec<FileEntry>,
    state: &mut UsnDriveState,
    current_journal_id: u64,
    next_usn: i64,
    events: &Vec<UsnEvent>,
) -> (r: Result<(), EngineError>)
    ensures
        current_journal_id != old(state).journal_id ==> r == Result::<
            (),
            EngineError,
        >::Err(EngineError::JournalInvalidated) && final(entries)@ == old(entries)@
            && *final(state) == *old(state),
        current_journal_id == old(state).journal_id ==> r == Result::<(), EngineError>::Ok(())
            && *final(state) == (UsnDriveState { last_usn: next_usn, ..*old(state) })
            && events_applied(
            old(entries)@,
            final(entries)@,
            events@,
            events@.len() as int,
            old(state).drive,
            old(state).root_frn,
        ),
{
    if current_journal_id != state.journal_id {
        return Err(EngineError::JournalInvalidated);
    }
    let snapshot = UsnDriveState {
        drive: state.drive,
        journal_id: state.journal_id,
        root_frn: state.root_frn,
        last_usn: state.last_usn,
    };
    apply_events_for_drive(entries, &snapshot, events);
    state.last_usn = next_usn;
    Ok(())
}

/// An ASCII letter.
pub open spec fn is_ascii_letter(c: char) -> bool {
    ('a' <= c && c <= 'z') || ('A' <= c && c <= 'Z')
}

/// The uppercase of an ASCII letter.
pub open spec fn ascii_upper_char(c: char) -> char {
    if 'a' <= c && c <= 'z' {
        (((c as u8) - 32) as char)
    } else {
        c
    }
}

/// The volume letter of a bare volume root: an ASCII drive letter, a colon,
/// and nothing but separators after them.
pub open spec fn spec_drive_root(s: Seq<char>) -> Option<char> {
    if s.len() >= 2 && is_ascii_letter(s[0]) && s[1] == ':' && (forall|i: int|
        2 <= i < s.len() ==> s[i] == '/' || s[i] == '\\') {
        Some(ascii_upper_char(s[0]))
    } else {
        None
    }
}

/// Recognizes a bare volume root and returns its uppercase letter.
pub fn is_drive_root(path: &str) -> (r: Option<char>)
    ensures
        r == spec_drive_root(path@),
{
    let cs = chars_of(path);
    let n = cs.len();
    if n < 2 {
        return None;
    }
    let c0 = cs[0];
    let letter = ('a' <= c0 && c0 <= 'z') || ('A' <= c0 && c0 <= 'Z');
    if !letter || cs[1] != ':' {
        return None;
    }
    let mut i: usize = 2;
    while i < n
        invariant
            2 <= i <= n,
            n == cs@.len(),
            cs@ == path@,
            forall|t: int| 2 <= t < i ==> cs@[t] == '/' || cs@[t] == '\\',
        decreases n - i,
    {
        let c = cs[i];
        if c != '/' && c != '\\' {
            return None;
        }
        i = i + 1;
    }
    let up: char = if 'a' <= c0 && c0 <= 'z' {
        (((c0 as u8) - 32) as char)
    } else {
        c0
    };
    Some(up)
}

} // verus!

