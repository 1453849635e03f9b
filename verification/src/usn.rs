//! The journal reader's record decoding: a bounds-checked decoder for the
//! fixed binary record layout, walks over one ioctl output buffer for bulk
//! enumeration and for incremental change reads, and full-path
//! reconstruction from parent-reference chains with a fixed depth guard.
//! Malformed or truncated records are skipped, never dereferenced.

use vstd::prelude::*;

verus! {

use std::collections::HashMap;
use crate::codec::{le_val, read_le, lemma_le_val_bound, lemma_pow256_mono, pow256, EngineError};
use crate::entry::FileEntry;
use crate::sync::{
    spec_dir_prefix,
    root_path_chars,
    drive_root_path,
    dir_prefix_string,
    UsnEvent,
    USN_REASON_FILE_CREATE,
    USN_REASON_FILE_DELETE,
    USN_REASON_RENAME_OLD_NAME,
    USN_REASON_RENAME_NEW_NAME,
};
use crate::text::search_key;

/// The record-walk cap on accumulated change events; exceeding it forces a
/// full re-enumeration.
pub const MAX_USN_EVENTS: usize = 500000;

/// The fixed size of a journal record's header.
pub const USN_RECORD_HEADER_LEN: usize = 60;

/// What String::from_utf16_lossy returns: a function of the code units
/// alone, with invalid data replaced.
pub uninterp spec fn utf16_lossy(units: Seq<u16>) -> Seq<char>;

/// Relies on String::from_utf16_lossy: decodes UTF-16 code units, replacing
/// invalid data with the replacement character.
#[verifier::external_body]
fn utf16_lossy_string(units: &Vec<u16>) -> (r: String)
    ensures
        r@ == utf16_lossy(units@),
{
    String::from_utf16_lossy(units.as_slice())
}

/// One tree node read from the master file table.
pub struct Node {
    pub parent: u64,
    pub name: String,
    pub attrs: u32,
}

/// The plain-value content of a node.
pub open spec fn node_model(n: Node) -> (u64, u32, Seq<char>) {
    (n.parent, n.attrs, n.name@)
}

/// The plain-value content of a node table.
pub open spec fn nodes_model(m: Map<u64, Node>) -> Map<u64, (u64, u32, Seq<char>)> {
    Map::new(|k: u64| m.dom().contains(k), |k: u64| node_model(m[k]))
}

/// A fixed-width little-endian field of the record at `off`.
pub open spec fn rec_field(b: Seq<u8>, off: int, at: int, width: int) -> int {
    le_val(b.subrange(off + at, off + at + width))
}

/// The name code units of a record: `cnt` little-endian pairs at `start`.
pub open spec fn spec_name_units(b: Seq<u8>, start: int, cnt: int) -> Seq<u16> {
    Seq::new(cnt as nat, |i: int| (b[start + 2 * i] + 256 * b[start + 2 * i + 1]) as u16)
}

/// The decoded model of one journal record.
pub struct UsnRecModel {
    pub next: int,
    pub record_length: int,
    pub major_version: int,
    pub frn: u64,
    pub parent_frn: u64,
    pub reason: u32,
    pub attrs: u32,
    pub has_name: bool,
    pub name: Seq<char>,
}

/// Decodes the record at `off` within the buffer region ending at `end`.
/// Every offset and length is validated against the region before any byte
/// is read; a record whose length is zero or runs past the region yields
/// `None`. A name is taken only when it lies entirely inside the record.
pub open spec fn spec_decode_usn(b: Seq<u8>, off: int, end: int) -> Option<UsnRecModel> {
    if !(0 <= off && off + 60 <= end && end <= b.len()) {
        None
    } else {
        let rl = rec_field(b, off, 0, 4);
        if rl == 0 || off + rl > end {
            None
        } else {
            let name_len = rec_field(b, off, 56, 2);
            let name_off = rec_field(b, off, 58, 2);
            let ok_name = name_len > 0 && name_off + name_len <= rl;
            Some(
                UsnRecModel {
                    next: off + rl,
                    record_length: rl,
                    major_version: rec_field(b, off, 4, 2),
                    frn: rec_field(b, off, 8, 8) as u64,
                    parent_frn: rec_field(b, off, 16, 8) as u64,
                    reason: rec_field(b, off, 40, 4) as u32,
                    attrs: rec_field(b, off, 52, 4) as u32,
                    has_name: ok_name,
                    name: if ok_name {
                        utf16_lossy(spec_name_units(b, off + name_off, name_len / 2))
                    } else {
                        Seq::empty()
                    },
                },
            )
        }
    }
}

/// One decoded journal record.
pub struct UsnRecord {
    pub record_length: u32,
    pub major_version: u16,
    pub frn: u64,
    pub parent_frn: u64,
    pub reason: u32,
    pub attrs: u32,
    pub has_name: bool,
    pub name: String,
}

/// The exec record carries exactly the decoded model.
pub open spec fn rec_matches(r: UsnRecord, next: int, m: UsnRecModel) -> bool {
    &&& next == m.next
    &&& r.record_length as int == m.record_length
    &&& r.major_version as int == m.major_version
    &&& r.frn == m.frn
    &&& r.parent_frn == m.parent_frn
    &&& r.reason == m.reason
    &&& r.attrs == m.attrs
    &&& r.has_name == m.has_name
    &&& r.name@ == m.name
}

/// Decodes one journal record with full bounds checking.
pub fn decode_usn_record(b: &Vec<u8>, off: usize, end: usize) -> (r: Option<(UsnRecord, usize)>)
    requires
        end <= b@.len(),
    ensures
        match r {
            Some(v) => spec_decode_usn(b@, off as int, end as int) is Some && rec_matches(
                v.0,
                v.1 as int,
                spec_decode_usn(b@, off as int, end as int)->0,
            ),
            None => spec_decode_usn(b@, off as int, end as int) is None,
        },
{
    if end < USN_RECORD_HEADER_LEN || off > end - USN_RECORD_HEADER_LEN {
        return None;
    }
    proof {
        lemma_pow256_mono(0, 8);
        assert(pow256(2) == 0x1_0000 && pow256(4) == 0x1_0000_0000 && pow256(8)
            == 0x1_0000_0000_0000_0000) by {
            reveal_with_fuel(pow256, 9);
        }
        lemma_le_val_bound(b@.subrange(off as int, off + 4));
        lemma_le_val_bound(b@.subrange(off + 4, off + 6));
        lemma_le_val_bound(b@.subrange(off + 40, off + 44));
        lemma_le_val_bound(b@.subrange(off + 52, off + 56));
        lemma_le_val_bound(b@.subrange(off + 56, off + 58));
        lemma_le_val_bound(b@.subrange(off + 58, off + 60));
    }
    let rl64 = read_le(b, off, 4);
    if rl64 == 0 || rl64 > (end - off) as u64 {
        return None;
    }
    let rl = rl64 as usize;
    let major = read_le(b, off + 4, 2) as u16;
    let frn = read_le(b, off + 8, 8);
    let parent_frn = read_le(b, off + 16, 8);
    let reason = read_le(b, off + 40, 4) as u32;
    let attrs = read_le(b, off + 52, 4) as u32;
    let name_len = read_le(b, off + 56, 2) as usize;
    let name_off = read_le(b, off + 58, 2) as usize;
    let ok_name = name_len > 0 && name_off + name_len <= rl;
    let name: String = if ok_name {
        let cnt = name_len / 2;
        let start = off + name_off;
        let mut units: Vec<u16> = Vec::new();
        let mut i: usize = 0;
        while i < cnt
            invariant
                i <= cnt,
                cnt == name_len / 2,
                name_len > 0,
                start == off + name_off,
                start + name_len <= end <= b@.len(),
                units@ == spec_name_units(b@, start as int, cnt as int).take(i as int),
            decreases cnt - i,
        {
            let lo = b[start + 2 * i];
            let hi = b[start + 2 * i + 1];
            let u: u16 = (lo as u16) + 256 * (hi as u16);
            units.push(u);
            i = i + 1;
            proof {
                assert(units@ =~= spec_name_units(b@, start as int, cnt as int).take(i as int));
            }
        }
        proof {
            assert(spec_name_units(b@, start as int, cnt as int).take(cnt as int)
                =~= spec_name_units(b@, start as int, cnt as int));
        }
        utf16_lossy_string(&units)
    } else {
        String::new()
    };
    proof {
        if !ok_name {
            assert(name@ =~= Seq::<char>::empty());
        }
    }
    let rec = UsnRecord {
        record_length: rl64 as u32,
        major_version: major,
        frn,
        parent_frn,
        reason,
        attrs,
        has_name: ok_name,
        name,
    };
    Some((rec, off + rl))
}

/// Whether a change record becomes an event: a version-two record whose
/// reason touches create, delete, or rename, that is not a lone old-name
/// rename record, that does not name the volume root, and that carries a
/// name.
pub open spec fn event_accept(m: UsnRecModel, root_frn: u64) -> bool {
    &&& m.major_version == 2
    &&& m.reason & (USN_REASON_FILE_CREATE | USN_REASON_FILE_DELETE | USN_REASON_RENAME_OLD_NAME
        | USN_REASON_RENAME_NEW_NAME) != 0
    &&& !(m.reason & USN_REASON_RENAME_OLD_NAME != 0 && m.reason & USN_REASON_RENAME_NEW_NAME == 0)
    &&& m.frn != root_frn
    &&& m.has_name
    &&& m.name.len() > 0
}

/// The events of one change buffer region, in record order, as plain
/// values: `(frn, parent, attrs, reason, name)`.
pub open spec fn spec_walk_events(b: Seq<u8>, off: int, end: int, root_frn: u64) -> Seq<
    (u64, u64, u32, u32, Seq<char>),
>
    decreases end - off,
{
    match spec_decode_usn(b, off, end) {
        None => Seq::empty(),
        Some(m) => {
            if m.next <= off || m.next > end {
                Seq::empty()
            } else {
                let rest = spec_walk_events(b, m.next, end, root_frn);
                if event_accept(m, root_frn) {
                    seq![(m.frn, m.parent_frn, m.attrs, m.reason, m.name)] + rest
                } else {
                    rest
                }
            }
        },
    }
}

/// The plain-value content of an event list.
pub open spec fn ev_models(s: Seq<UsnEvent>) -> Seq<(u64, u64, u32, u32, Seq<char>)> {
    Seq::new(s.len(), |i: int| (s[i].frn, s[i].parent_frn, s[i].attrs, s[i].reason, s[i].name@))
}

/// Walks one change-journal buffer, appending its events to `out`.
///
/// A region shorter than a cursor yields no cursor and no events. Otherwise
/// the new cursor is the leading eight bytes and the accepted records
/// follow; accumulating more than the cap reports `ChangeVolumeExceeded`,
/// telling the caller to fall back to full re-enumeration.
pub fn collect_usn_events(
    out: &mut Vec<UsnEvent>,
    b: &Vec<u8>,
    bytes_returned: usize,
    root_frn: u64,
) -> (r: Result<Option<i64>, EngineError>)
    requires
        bytes_returned <= b@.len(),
    ensures
        bytes_returned < 8 ==> r == Result::<Option<i64>, EngineError>::Ok(None) && final(out)@
            == old(out)@,
        bytes_returned >= 8 ==> {
            let evs = spec_walk_events(b@, 8, bytes_returned as int, root_frn);
            let cursor = le_val(b@.subrange(0, 8)) as u64 as i64;
            if evs.len() > 0 && old(out)@.len() + evs.len() > MAX_USN_EVENTS {
                r == Result::<Option<i64>, EngineError>::Err(EngineError::ChangeVolumeExceeded)
            } else {
                r == Result::<Option<i64>, EngineError>::Ok(Some(cursor)) && ev_models(
                    final(out)@,
                ) == ev_models(old(out)@) + evs
            }
        },
{
    if bytes_returned < 8 {
        return Ok(None);
    }
    proof {
        lemma_pow256_mono(0, 8);
        assert(pow256(8) == 0x1_0000_0000_0000_0000) by {
            reveal_with_fuel(pow256, 9);
        }
        lemma_le_val_bound(b@.subrange(0, 8));
    }
    let cursor = read_le(b, 0, 8) as i64;
    let ghost full = spec_walk_events(b@, 8, bytes_returned as int, root_frn);
    let ghost base = ev_models(out@);
    let mut off: usize = 8;
    loop
        invariant_except_break
            8 <= off <= bytes_returned <= b@.len(),
            out@.len() <= MAX_USN_EVENTS || out@.len() == base.len(),
            out@.len() >= base.len(),
            base == ev_models(old(out)@),
            full == spec_walk_events(b@, 8, bytes_returned as int, root_frn),
            base + full =~= ev_models(out@) + spec_walk_events(
                b@,
                off as int,
                bytes_returned as int,
                root_frn,
            ),
        ensures
            base + full =~= ev_models(out@),
            out@.len() <= MAX_USN_EVENTS || out@.len() == base.len(),
        decreases bytes_returned - off,
    {
        let step = decode_usn_record(b, off, bytes_returned);
        match step {
            None => {
                proof {
                    assert(spec_walk_events(b@, off as int, bytes_returned as int, root_frn)
                        =~= Seq::<(u64, u64, u32, u32, Seq<char>)>::empty());
                    assert(base + full =~= ev_models(out@));
                }
                break ;
            },
            Some((rec, next)) => {
                let ghost m = spec_decode_usn(b@, off as int, bytes_returned as int)->0;
                proof {
                    assert(m.next == off + m.record_length && 1 <= m.record_length && m.next
                        <= bytes_returned);
                }
                let accepted = rec.major_version == 2 && rec.reason & (USN_REASON_FILE_CREATE
                    | USN_REASON_FILE_DELETE | USN_REASON_RENAME_OLD_NAME
                    | USN_REASON_RENAME_NEW_NAME) != 0 && !(rec.reason & USN_REASON_RENAME_OLD_NAME
                    != 0 && rec.reason & USN_REASON_RENAME_NEW_NAME == 0) && rec.frn != root_frn
                    && rec.has_name && !rec.name.as_str().is_empty();
                proof {
                    assert(accepted == event_accept(m, root_frn));
                }
                let ghost pre_models = ev_models(out@);
                if accepted {
                    let ev = UsnEvent {
                        frn: rec.frn,
                        parent_frn: rec.parent_frn,
                        attrs: rec.attrs,
                        reason: rec.reason,
                        name: rec.name,
                    };
                    out.push(ev);
                    proof {
                        assert(ev_models(out@) =~= pre_models.push(
                            (m.frn, m.parent_frn, m.attrs, m.reason, m.name),
                        ));
                        assert(spec_walk_events(b@, off as int, bytes_returned as int, root_frn)
                            =~= seq![(m.frn, m.parent_frn, m.attrs, m.reason, m.name)]
                            + spec_walk_events(b@, next as int, bytes_returned as int, root_frn));
                        assert(pre_models + (seq![(m.frn, m.parent_frn, m.attrs, m.reason, m.name)]
                            + spec_walk_events(b@, next as int, bytes_returned as int, root_frn))
                            =~= ev_models(out@) + spec_walk_events(
                            b@,
                            next as int,
                            bytes_returned as int,
                            root_frn,
                        ));
                    }
                    if out.len() > MAX_USN_EVENTS {
                        proof {
                            assert(base.len() + full.len() == ev_models(out@).len()
                                + spec_walk_events(
                                b@,
                                next as int,
                                bytes_returned as int,
                                root_frn,
                            ).len());
                            assert(ev_models(out@).len() == out@.len());
                            assert(ev_models(out@).len() == pre_models.len() + 1);
                            assert(pre_models.len() >= base.len());
                            assert(full.len() >= 1);
                            assert(base.len() + full.len() > MAX_USN_EVENTS);
                        }
                        return Err(EngineError::ChangeVolumeExceeded);
                    }
                } else {
                    proof {
                        assert(spec_walk_events(b@, off as int, bytes_returned as int, root_frn)
                            =~= spec_walk_events(b@, next as int, bytes_returned as int, root_frn));
                    }
                }
                off = next;
            },
        }
    }
    Ok(Some(cursor))
}

/// Accepted master-file-table rows of one buffer region, in record order:
/// `(frn, parent, attrs, name)` of every version-two record with a name.
pub open spec fn spec_walk_mft(b: Seq<u8>, off: int, end: int) -> Seq<(u64, u64, u32, Seq<char>)>
    decreases end - off,
{
    match spec_decode_usn(b, off, end) {
        None => Seq::empty(),
        Some(m) => {
            if m.next <= off || m.next > end {
                Seq::empty()
            } else {
                let rest = spec_walk_mft(b, m.next, end);
                if m.major_version == 2 && m.has_name && m.name.len() > 0 {
                    seq![(m.frn, m.parent_frn, m.attrs, m.name)] + rest
                } else {
                    rest
                }
            }
        },
    }
}

/// The node table after storing the rows from `j` on, later rows winning.
pub open spec fn overlay(
    m: Map<u64, (u64, u32, Seq<char>)>,
    rows: Seq<(u64, u64, u32, Seq<char>)>,
    j: int,
) -> Map<u64, (u64, u32, Seq<char>)>
    decreases rows.len() - j,
{
    if j < 0 || j >= rows.len() {
        m
    } else {
        overlay(m.insert(rows[j].0, (rows[j].1, rows[j].2, rows[j].3)), rows, j + 1)
    }
}

/// Storing a leading row first is one insertion.
proof fn lemma_overlay_shift(
    m: Map<u64, (u64, u32, Seq<char>)>,
    r0: (u64, u64, u32, Seq<char>),
    rest: Seq<(u64, u64, u32, Seq<char>)>,
    j: int,
)
    requires
        0 <= j <= rest.len(),
    ensures
        overlay(m, seq![r0] + rest, j + 1) == overlay(m, rest, j),
    decreases rest.len() - j,
{
    if j < rest.len() {
        assert((seq![r0] + rest)[j + 1] == rest[j]);
        lemma_overlay_shift(m.insert(rest[j].0, (rest[j].1, rest[j].2, rest[j].3)), r0, rest, j + 1);
    }
}

/// Reads the rows of one enumeration buffer into the node table; returns
/// the buffer's continuation reference, or `None` when the buffer is too
/// short to hold one (the end of the enumeration).
pub fn collect_mft_nodes(
    nodes: &mut HashMap<u64, Node>,
    b: &Vec<u8>,
    bytes_returned: usize,
) -> (r: Option<u64>)
    requires
        bytes_returned <= b@.len(),
    ensures
        bytes_returned <= 8 ==> r is None && final(nodes)@ == old(nodes)@,
        bytes_returned > 8 ==> r == Some(le_val(b@.subrange(0, 8)) as u64) && nodes_model(
            final(nodes)@,
        ) == overlay(
            nodes_model(old(nodes)@),
            spec_walk_mft(b@, 8, bytes_returned as int),
            0,
        ),
{
    if bytes_returned <= 8 {
        return None;
    }
    proof {
        lemma_pow256_mono(0, 8);
        assert(pow256(8) == 0x1_0000_0000_0000_0000) by {
            reveal_with_fuel(pow256, 9);
        }
        lemma_le_val_bound(b@.subrange(0, 8));
    }
    let next_frn = read_le(b, 0, 8);
    let ghost full = spec_walk_mft(b@, 8, bytes_returned as int);
    let ghost goal = overlay(nodes_model(old(nodes)@), full, 0);
    let mut off: usize = 8;
    loop
        invariant_except_break
            8 <= off <= bytes_returned <= b@.len(),
            goal == overlay(
                nodes_model(nodes@),
                spec_walk_mft(b@, off as int, bytes_returned as int),
                0,
            ),
        ensures
            goal == nodes_model(nodes@),
        decreases bytes_returned - off,
    {
        let step = decode_usn_record(b, off, bytes_returned);
        match step {
            None => {
                proof {
                    assert(spec_walk_mft(b@, off as int, bytes_returned as int) =~= Seq::<
                        (u64, u64, u32, Seq<char>),
                    >::empty());
                }
                break ;
            },
            Some((rec, next)) => {
                let ghost m = spec_decode_usn(b@, off as int, bytes_returned as int)->0;
                proof {
                    assert(m.next == off + m.record_length && 1 <= m.record_length && m.next
                        <= bytes_returned);
                }
                let accepted = rec.major_version == 2 && rec.has_name
                    && !rec.name.as_str().is_empty();
                if accepted {
                    let ghost prior = nodes_model(nodes@);
                    let node = Node { parent: rec.parent_frn, name: rec.name, attrs: rec.attrs };
                    nodes.insert(rec.frn, node);
                    proof {
                        assert(nodes_model(nodes@) =~= prior.insert(
                            m.frn,
                            (m.parent_frn, m.attrs, m.name),
                        ));
                        assert(spec_walk_mft(b@, off as int, bytes_returned as int) == seq![
                            (m.frn, m.parent_frn, m.attrs, m.name),
                        ] + spec_walk_mft(b@, next as int, bytes_returned as int));
                        lemma_overlay_shift(
                            prior.insert(m.frn, (m.parent_frn, m.attrs, m.name)),
                            (m.frn, m.parent_frn, m.attrs, m.name),
                            spec_walk_mft(b@, next as int, bytes_returned as int),
                            0,
                        );
                        assert(overlay(
                            prior,
                            spec_walk_mft(b@, off as int, bytes_returned as int),
                            0,
                        ) == overlay(
                            nodes_model(nodes@),
                            spec_walk_mft(b@, next as int, bytes_returned as int),
                            0,
                        ));
                    }
                } else {
                    proof {
                        assert(spec_walk_mft(b@, off as int, bytes_returned as int)
                            =~= spec_walk_mft(b@, next as int, bytes_returned as int));
                    }
                }
                off = next;
            },
        }
    }
    Some(next_frn)
}

/// The chain-depth guard on path reconstruction.
pub const MAX_PATH_CHAIN: usize = 4096;

/// The full path of `frn`: walk parent references to the volume root,
/// spending one unit of fuel per link; nodes whose parent reference is zero
/// or self-referential hang off the root. `None` for unknown references and
/// for chains deeper than the fuel (a cycle guard on corrupt data).
pub open spec fn spec_full_path(
    nodes: Map<u64, Node>,
    root_frn: u64,
    drive: u8,
    frn: u64,
    fuel: nat,
) -> Option<Seq<char>>
    decreases fuel,
{
    if frn == root_frn {
        Some(root_path_chars(drive))
    } else if fuel == 0 {
        None
    } else if !nodes.dom().contains(frn) {
        None
    } else {
        let node = nodes[frn];
        let base = if node.parent == 0 || node.parent == frn {
            Some(root_path_chars(drive))
        } else {
            spec_full_path(nodes, root_frn, drive, node.parent, (fuel - 1) as nat)
        };
        match base {
            Some(bp) => Some(spec_dir_prefix(bp) + node.name@),
            None => None,
        }
    }
}

/// Appends the names of a deepest-first reference chain onto a base path.
pub open spec fn chain_append(
    nodes: Map<u64, Node>,
    chain: Seq<u64>,
    base: Option<Seq<char>>,
) -> Option<Seq<char>>
    decreases chain.len(),
{
    if chain.len() == 0 {
        base
    } else {
        match chain_append(nodes, chain.drop_first(), base) {
            Some(bp) => Some(spec_dir_prefix(bp) + nodes[chain[0]].name@),
            None => None,
        }
    }
}

/// A failed base fails the whole chain.
proof fn lemma_chain_append_none(nodes: Map<u64, Node>, chain: Seq<u64>)
    ensures
        chain_append(nodes, chain, None) is None,
    decreases chain.len(),
{
    if chain.len() > 0 {
        lemma_chain_append_none(nodes, chain.drop_first());
    }
}

/// Extending the chain by one deepest link prepends one name application.
proof fn lemma_chain_append_push(
    nodes: Map<u64, Node>,
    chain: Seq<u64>,
    f: u64,
    base: Option<Seq<char>>,
)
    ensures
        chain_append(nodes, chain.push(f), base) == chain_append(
            nodes,
            chain,
            match base {
                Some(bp) => Some(spec_dir_prefix(bp) + nodes[f].name@),
                None => None,
            },
        ),
    decreases chain.len(),
{
    if chain.len() == 0 {
        assert(chain.push(f).drop_first() =~= Seq::<u64>::empty());
        assert(chain.push(f)[0] == f);
    } else {
        assert(chain.push(f).drop_first() =~= chain.drop_first().push(f));
        assert(chain.push(f)[0] == chain[0]);
        lemma_chain_append_push(nodes, chain.drop_first(), f, base);
    }
}

/// Reconstructs the full path of `frn` by walking parent references to the
/// volume root, within the fixed chain-depth guard.
pub fn build_full_path(
    nodes: &HashMap<u64, Node>,
    root_frn: u64,
    drive: u8,
    frn: u64,
) -> (r: Option<String>)
    ensures
        match r {
            Some(p) => spec_full_path(nodes@, root_frn, drive, frn, MAX_PATH_CHAIN as nat) == Some(
                p@,
            ),
            None => spec_full_path(nodes@, root_frn, drive, frn, MAX_PATH_CHAIN as nat) is None,
        },
{
    let ghost target = spec_full_path(nodes@, root_frn, drive, frn, MAX_PATH_CHAIN as nat);
    let mut chain: Vec<u64> = Vec::new();
    let mut cur: u64 = frn;
    let mut base: String;
    proof {
        assert(chain_append(nodes@, chain@, target) == target);
    }
    loop
        invariant_except_break
            chain@.len() <= MAX_PATH_CHAIN,
            target == spec_full_path(nodes@, root_frn, drive, frn, MAX_PATH_CHAIN as nat),
            forall|j: int| 0 <= j < chain@.len() ==> nodes@.dom().contains(#[trigger] chain@[j]),
            target == chain_append(
                nodes@,
                chain@,
                spec_full_path(
                    nodes@,
                    root_frn,
                    drive,
                    cur,
                    (MAX_PATH_CHAIN - chain@.len()) as nat,
                ),
            ),
        ensures
            forall|j: int| 0 <= j < chain@.len() ==> nodes@.dom().contains(#[trigger] chain@[j]),
            target == chain_append(nodes@, chain@, Some(root_path_chars(drive))),
            base@ == root_path_chars(drive),
        decreases MAX_PATH_CHAIN - chain@.len(),
    {
        if cur == root_frn {
            base = drive_root_path(drive);
            break ;
        }
        if chain.len() == MAX_PATH_CHAIN {
            proof {
                assert(spec_full_path(
                    nodes@,
                    root_frn,
                    drive,
                    cur,
                    (MAX_PATH_CHAIN - chain@.len()) as nat,
                ) is None);
                lemma_chain_append_none(nodes@, chain@);
                assert(target is None);
            }
            return None;
        }
        match nodes.get(&cur) {
            None => {
                proof {
                    assert(spec_full_path(
                        nodes@,
                        root_frn,
                        drive,
                        cur,
                        (MAX_PATH_CHAIN - chain@.len()) as nat,
                    ) is None);
                    lemma_chain_append_none(nodes@, chain@);
                    assert(target is None);
                }
                return None;
            },
            Some(node) => {
                let parent = node.parent;
                proof {
                    lemma_chain_append_push(
                        nodes@,
                        chain@,
                        cur,
                        if parent == 0 || parent == cur {
                            Some(root_path_chars(drive))
                        } else {
                            spec_full_path(
                                nodes@,
                                root_frn,
                                drive,
                                parent,
                                (MAX_PATH_CHAIN - chain@.len() - 1) as nat,
                            )
                        },
                    );
                }
                chain.push(cur);
                if parent == 0 || parent == cur {
                    base = drive_root_path(drive);
                    break ;
                }
                cur = parent;
            },
        }
    }
    // fold the chain back into a path, nearest the root first
    let mut path = base;
    let mut t: usize = chain.len();
    proof {
        assert(chain@.subrange(t as int, chain@.len() as int) =~= Seq::<u64>::empty());
    }
    while t > 0
        invariant
            t <= chain@.len(),
            forall|j: int| 0 <= j < chain@.len() ==> nodes@.dom().contains(#[trigger] chain@[j]),
            target == chain_append(nodes@, chain@, Some(root_path_chars(drive))),
            chain_append(
                nodes@,
                chain@.subrange(t as int, chain@.len() as int),
                Some(root_path_chars(drive)),
            ) == Some(path@),
        decreases t,
    {
        t = t - 1;
        let f = chain[t];
        let mut next_path = dir_prefix_string(&path);
        match nodes.get(&f) {
            Some(node) => {
                next_path.append(node.name.as_str());
            },
            None => {
                proof {
                    assert(false);
                }
            },
        }
        proof {
            assert(chain@.subrange(t as int, chain@.len() as int).drop_first() =~= chain@.subrange(
                t + 1,
                chain@.len() as int,
            ));
            assert(chain@.subrange(t as int, chain@.len() as int)[0] == chain@[t as int]);
        }
        path = next_path;
    }
    proof {
        assert(chain@.subrange(0, chain@.len() as int) =~= chain@);
    }
    Some(path)
}

/// Relies on HashMap::keys: yields every key of the table exactly once, in
/// no fixed order.
#[verifier::external_body]
fn node_keys(nodes: &HashMap<u64, Node>) -> (r: Vec<u64>)
    ensures
        r@.no_duplicates(),
        forall|j: int| 0 <= j < r@.len() ==> nodes@.dom().contains(#[trigger] r@[j]),
        forall|k: u64| #[trigger] nodes@.dom().contains(k) ==> r@.contains(k),
{
    nodes.keys().copied().collect()
}

/// The field relation of an entry built from one enumeration node.
pub open spec fn node_entry_rel(
    e: FileEntry,
    nodes: Map<u64, Node>,
    root_frn: u64,
    drive: u8,
    f: u64,
) -> bool {
    &&& e.name@ == nodes[f].name@
    &&& e.name_lower@ == search_key(nodes[f].name@)
    &&& spec_full_path(nodes, root_frn, drive, f, MAX_PATH_CHAIN as nat) == Some(e.path@)
    &&& e.path_lower@ == search_key(e.path@)
    &&& e.drive == drive
    &&& e.frn == f
    &&& e.parent_frn == nodes[f].parent
    &&& e.size == u64::MAX
    &&& e.modified_ms == 0
    &&& e.is_dir == crate::sync::attrs_is_dir(nodes[f].attrs)
    &&& e.is_hidden == crate::sync::attrs_is_hidden(nodes[f].attrs)
}

/// Builds the entry table of one fully enumerated volume: one entry per
/// node other than the root whose path chain resolves, each with its
/// reconstructed path. Nodes with unresolvable chains are dropped, not
/// failed on; the table order is not fixed.
pub fn entries_from_nodes(nodes: &HashMap<u64, Node>, root_frn: u64, drive: u8) -> (r: Vec<
    FileEntry,
>)
    ensures
        forall|i: int|
            0 <= i < r@.len() ==> nodes@.dom().contains((#[trigger] r@[i]).frn) && r@[i].frn
                != root_frn && node_entry_rel(r@[i], nodes@, root_frn, drive, r@[i].frn),
        forall|i1: int, i2: int|
            0 <= i1 < i2 < r@.len() ==> (#[trigger] r@[i1]).frn != (#[trigger] r@[i2]).frn,
        forall|f: u64|
            #[trigger] nodes@.dom().contains(f) && f != root_frn && spec_full_path(
                nodes@,
                root_frn,
                drive,
                f,
                MAX_PATH_CHAIN as nat,
            ) is Some ==> exists|i: int| 0 <= i < r@.len() && (#[trigger] r@[i]).frn == f,
{
    let keys = node_keys(nodes);
    let mut r: Vec<FileEntry> = Vec::new();
    let mut k: usize = 0;
    while k < keys.len()
        invariant
            k <= keys@.len(),
            keys@.no_duplicates(),
            forall|j: int| 0 <= j < keys@.len() ==> nodes@.dom().contains(#[trigger] keys@[j]),
            forall|f: u64| #[trigger] nodes@.dom().contains(f) ==> keys@.contains(f),
            forall|i: int|
                0 <= i < r@.len() ==> nodes@.dom().contains((#[trigger] r@[i]).frn) && r@[i].frn
                    != root_frn && node_entry_rel(r@[i], nodes@, root_frn, drive, r@[i].frn),
            forall|i: int|
                0 <= i < r@.len() ==> exists|j: int|
                    0 <= j < k && (#[trigger] r@[i]).frn == keys@[j],
            forall|i1: int, i2: int|
                0 <= i1 < i2 < r@.len() ==> (#[trigger] r@[i1]).frn != (#[trigger] r@[i2]).frn,
            forall|j: int|
                0 <= j < k && keys@[j] != root_frn && spec_full_path(
                    nodes@,
                    root_frn,
                    drive,
                    #[trigger] keys@[j],
                    MAX_PATH_CHAIN as nat,
                ) is Some ==> exists|i: int| 0 <= i < r@.len() && (#[trigger] r@[i]).frn == keys@[j],
        decreases keys@.len() - k,
    {
        let ghost old_r = r@;
        let f = keys[k];
        if f != root_frn {
            match build_full_path(nodes, root_frn, drive, f) {
                Some(path) => {
                    match nodes.get(&f) {
                        Some(node) => {
                            let entry = FileEntry::new(
                                node.name.clone(),
                                path,
                                drive,
                                f,
                                node.parent,
                                u64::MAX,
                                0,
                                node.attrs & crate::sync::FILE_ATTRIBUTE_DIRECTORY != 0,
                                node.attrs & (crate::sync::FILE_ATTRIBUTE_HIDDEN
                                    | crate::sync::FILE_ATTRIBUTE_SYSTEM) != 0,
                            );
                            proof {
                                assert(node_entry_rel(entry, nodes@, root_frn, drive, f));
                                assert forall|i1: int|
                                    0 <= i1 < r@.len() implies (#[trigger] r@[i1]).frn != f by {
                                    let j = choose|j: int|
                                        0 <= j < k && r@[i1].frn == #[trigger] keys@[j];
                                    assert(keys@[j] != keys@[k as int]);
                                }
                            }
                            r.push(entry);
                            proof {
                                assert forall|j: int|
                                    0 <= j < k + 1 && keys@[j] != root_frn && spec_full_path(
                                        nodes@,
                                        root_frn,
                                        drive,
                                        #[trigger] keys@[j],
                                        MAX_PATH_CHAIN as nat,
                                    ) is Some implies exists|i: int|
                                    0 <= i < r@.len() && (#[trigger] r@[i]).frn == keys@[j] by {
                                    if j < k {
                                        let i = choose|i: int|
                                            0 <= i < old_r.len() && (#[trigger] old_r[i]).frn
                                                == keys@[j];
                                        assert(r@[i] == old_r[i]);
                                    } else {
                                        assert(r@[old_r.len() as int].frn == keys@[j]);
                                    }
                                }
                            }
                        },
                        None => {
                            proof {
                                assert(false);
                            }
                        },
                    }
                },
                None => {},
            }
        }
        k = k + 1;
    }
    proof {
        assert forall|f: u64|
            #[trigger] nodes@.dom().contains(f) && f != root_frn && spec_full_path(
                nodes@,
                root_frn,
                drive,
                f,
                MAX_PATH_CHAIN as nat,
            ) is Some implies exists|i: int| 0 <= i < r@.len() && (#[trigger] r@[i]).frn == f by {
            assert(keys@.contains(f));
            let j = choose|j: int| 0 <= j < keys@.len() && keys@[j] == f;
            assert(spec_full_path(nodes@, root_frn, drive, keys@[j], MAX_PATH_CHAIN as nat) is Some);
        }
    }
    r
}

} // verus!
