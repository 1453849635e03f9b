//! The versioned binary cache codec.
//!
//! Layout: a fixed eight-byte header (four magic bytes, a format version, an
//! encoding tag, two reserved bytes), then a variable-width-encoded payload:
//! the entry count, and per entry the normalized path (byte length, then
//! UTF-8 bytes), the size, the modified time, and one bit-packed flags byte.
//! Names and lowercase keys are derived on load, not stored. A legacy
//! fixed-width format without the magic prefix is still readable.

use vstd::prelude::*;

verus! {

use vstd::utf8::{encode_utf8, decode_utf8, valid_utf8, encode_utf8_valid_utf8, encode_utf8_decode_utf8};
use crate::entry::FileEntry;
use crate::text::{search_key, spec_file_name};

/// Engine-level failure kinds.
#[derive(Clone, Copy, Debug, PartialEq, Eq, Structural)]
pub enum EngineError {
    PermissionDenied,
    JournalInvalidated,
    ChangeVolumeExceeded,
    CacheFormatError,
    MalformedRecord,
}

/// The four magic bytes, the current version, and the encoding tag.
pub open spec fn spec_header() -> Seq<u8> {
    seq![0x52u8, 0x53u8, 0x49u8, 0x58u8, 2u8, 1u8, 0u8, 0u8]
}

/// One cached record: path characters, size, modified time, directory and
/// hidden flags.
pub open spec fn spec_record(e: FileEntry) -> (Seq<char>, u64, u64, bool, bool) {
    (e.path@, e.size, e.modified_ms, e.is_dir, e.is_hidden)
}

/// The packed flags byte: bit zero marks a directory, bit one a hidden
/// object.
pub open spec fn spec_flags(is_dir: bool, is_hidden: bool) -> u8 {
    ((if is_dir {
        1u8
    } else {
        0u8
    }) + (if is_hidden {
        2u8
    } else {
        0u8
    })) as u8
}

/// `n` little-endian bytes of `x`.
pub open spec fn le_bytes(x: u64, n: nat) -> Seq<u8>
    decreases n,
{
    if n == 0 {
        Seq::empty()
    } else {
        seq![(x % 256) as u8] + le_bytes(x / 256, (n - 1) as nat)
    }
}

/// The value of a little-endian byte run.
pub open spec fn le_val(bytes: Seq<u8>) -> int
    decreases bytes.len(),
{
    if bytes.len() == 0 {
        0
    } else {
        bytes[0] + 256 * le_val(bytes.drop_first())
    }
}

/// Two hundred fifty-six to the `n`.
pub open spec fn pow256(n: nat) -> int
    decreases n,
{
    if n == 0 {
        1
    } else {
        256 * pow256((n - 1) as nat)
    }
}

/// The variable-width encoding of an unsigned value: one byte below 251,
/// otherwise a width tag and that many little-endian bytes.
pub open spec fn varint_bytes(x: u64) -> Seq<u8> {
    if x < 251 {
        seq![x as u8]
    } else if x <= 0xFFFF {
        seq![251u8] + le_bytes(x, 2)
    } else if x <= 0xFFFF_FFFF {
        seq![252u8] + le_bytes(x, 4)
    } else {
        seq![253u8] + le_bytes(x, 8)
    }
}

/// Decodes a variable-width value at `p`: the value and the next position.
pub open spec fn spec_decode_varint(b: Seq<u8>, p: int) -> Option<(u64, int)> {
    if p < 0 || p >= b.len() {
        None
    } else {
        let tag = b[p];
        if tag < 251 {
            Some((tag as u64, p + 1))
        } else if tag == 251 {
            if p + 3 <= b.len() {
                Some((le_val(b.subrange(p + 1, p + 3)) as u64, p + 3))
            } else {
                None
            }
        } else if tag == 252 {
            if p + 5 <= b.len() {
                Some((le_val(b.subrange(p + 1, p + 5)) as u64, p + 5))
            } else {
                None
            }
        } else if tag == 253 {
            if p + 9 <= b.len() {
                Some((le_val(b.subrange(p + 1, p + 9)) as u64, p + 9))
            } else {
                None
            }
        } else {
            None
        }
    }
}

/// The encoded payload of one record.
pub open spec fn spec_encode_record(rec: (Seq<char>, u64, u64, bool, bool)) -> Seq<u8> {
    let pb = encode_utf8(rec.0);
    varint_bytes(pb.len() as u64) + pb + varint_bytes(rec.1) + varint_bytes(rec.2) + seq![
        spec_flags(rec.3, rec.4),
    ]
}

/// The encoded payload of the records of `entries` from index `i` on.
pub open spec fn spec_encode_records(entries: Seq<FileEntry>, i: int) -> Seq<u8>
    decreases entries.len() - i,
{
    if i < 0 || i >= entries.len() {
        Seq::empty()
    } else {
        spec_encode_record(spec_record(entries[i])) + spec_encode_records(entries, i + 1)
    }
}

/// The whole cache image of an entry table.
pub open spec fn spec_encode_cache(entries: Seq<FileEntry>) -> Seq<u8> {
    spec_header() + varint_bytes(entries.len() as u64) + spec_encode_records(entries, 0)
}

/// Decodes one record at `p`: the record and the next position. A record is
/// rejected when a length runs past the buffer or the path bytes are not
/// valid UTF-8.
pub open spec fn spec_decode_record(b: Seq<u8>, p: int) -> Option<
    ((Seq<char>, u64, u64, bool, bool), int),
> {
    match spec_decode_varint(b, p) {
        Some((plen, p1)) => {
            if p1 + plen <= b.len() {
                let pb = b.subrange(p1, p1 + plen);
                if valid_utf8(pb) {
                    let path = decode_utf8(pb);
                    match spec_decode_varint(b, p1 + plen) {
                        Some((size, p2)) => match spec_decode_varint(b, p2) {
                            Some((modified, p3)) => {
                                if p3 < b.len() {
                                    let f = b[p3];
                                    Some(
                                        (
                                            (
                                                path,
                                                size,
                                                modified,
                                                f % 2 == 1,
                                                (f / 2) % 2 == 1,
                                            ),
                                            p3 + 1,
                                        ),
                                    )
                                } else {
                                    None
                                }
                            },
                            None => None,
                        },
                        None => None,
                    }
                } else {
                    None
                }
            } else {
                None
            }
        },
        None => None,
    }
}

/// Decodes `n` records starting at `p`.
pub open spec fn spec_decode_records(b: Seq<u8>, p: int, n: nat) -> Option<
    (Seq<(Seq<char>, u64, u64, bool, bool)>, int),
>
    decreases n,
{
    if n == 0 {
        Some((Seq::empty(), p))
    } else {
        match spec_decode_record(b, p) {
            Some((rec, p1)) => match spec_decode_records(b, p1, (n - 1) as nat) {
                Some((recs, p2)) => Some((seq![rec] + recs, p2)),
                None => None,
            },
            None => None,
        }
    }
}

/// Decodes a whole cache image in the current format: the header must match
/// byte for byte but the reserved bytes, the payload must hold exactly the
/// announced record count, and nothing may follow it.
pub open spec fn spec_decode_cache(b: Seq<u8>) -> Option<Seq<(Seq<char>, u64, u64, bool, bool)>> {
    if b.len() < 8 {
        None
    } else if !(b[0] == 0x52 && b[1] == 0x53 && b[2] == 0x49 && b[3] == 0x58) {
        None
    } else if b[4] != 2 || b[5] != 1 {
        None
    } else {
        match spec_decode_varint(b, 8) {
            Some((n, p)) => match spec_decode_records(b, p, n as nat) {
                Some((recs, p2)) => if p2 == b.len() {
                    Some(recs)
                } else {
                    None
                },
                None => None,
            },
            None => None,
        }
    }
}

/// Whether a byte image announces the current cache format.
pub open spec fn spec_has_magic(b: Seq<u8>) -> bool {
    b.len() >= 8 && b[0] == 0x52 && b[1] == 0x53 && b[2] == 0x49 && b[3] == 0x58
}

/// A little-endian run is as long as asked.
proof fn lemma_le_bytes_len(x: u64, n: nat)
    ensures
        le_bytes(x, n).len() == n,
    decreases n,
{
    if n > 0 {
        lemma_le_bytes_len(x / 256, (n - 1) as nat);
    }
}

/// A little-endian run's value is non-negative and bounded by its width.
pub(crate) proof fn lemma_le_val_bound(s: Seq<u8>)
    ensures
        0 <= le_val(s) < pow256(s.len()),
    decreases s.len(),
{
    if s.len() > 0 {
        lemma_le_val_bound(s.drop_first());
    }
}

/// Powers of two hundred fifty-six do not decrease.
pub(crate) proof fn lemma_pow256_mono(a: nat, b: nat)
    requires
        a <= b,
    ensures
        0 < pow256(a) <= pow256(b),
    decreases b,
{
    if b > 0 {
        if a == b {
            lemma_pow256_mono((a - 1) as nat, (b - 1) as nat);
        } else {
            lemma_pow256_mono(a, (b - 1) as nat);
        }
    }
}

/// Reading back `n` little-endian bytes of a value below the width bound
/// returns the value.
proof fn lemma_le_roundtrip(x: u64, n: nat)
    requires
        x < pow256(n),
    ensures
        le_val(le_bytes(x, n)) == x,
    decreases n,
{
    if n == 0 {
    } else {
        assert(x / 256 < pow256((n - 1) as nat)) by (nonlinear_arith)
            requires
                x < 256 * pow256((n - 1) as nat),
                pow256((n - 1) as nat) > 0,
        {
            lemma_pow256_mono(0, (n - 1) as nat);
        }
        lemma_le_roundtrip(x / 256, (n - 1) as nat);
        assert(le_bytes(x, n).drop_first() =~= le_bytes(x / 256, (n - 1) as nat));
        assert(le_bytes(x, n)[0] == (x % 256) as u8);
    }
}

/// Appends `n` little-endian bytes of `x`.
fn write_le(out: &mut Vec<u8>, x: u64, n: usize)
    requires
        n <= 8,
    ensures
        final(out)@ == old(out)@ + le_bytes(x, n as nat),
{
    let mut v = x;
    let mut k: usize = 0;
    while k < n
        invariant
            k <= n,
            old(out)@ + le_bytes(x, n as nat) == out@ + le_bytes(v, (n - k) as nat),
        decreases n - k,
    {
        let ghost pre = out@;
        let ghost vv = v;
        out.push((v % 256) as u8);
        v = v / 256;
        k = k + 1;
        proof {
            assert(le_bytes(vv, (n - k + 1) as nat) == seq![(vv % 256) as u8] + le_bytes(
                vv / 256,
                (n - k) as nat,
            ));
            assert(pre + le_bytes(vv, (n - k + 1) as nat) =~= out@ + le_bytes(v, (n - k) as nat));
        }
    }
    proof {
        assert(le_bytes(v, 0) =~= Seq::<u8>::empty());
        assert(out@ + le_bytes(v, 0) =~= out@);
    }
}

/// Reads `n` little-endian bytes at `p`.
pub(crate) fn read_le(b: &Vec<u8>, p: usize, n: usize) -> (r: u64)
    requires
        p + n <= b@.len(),
        1 <= n <= 8,
    ensures
        r as int == le_val(b@.subrange(p as int, p + n)),
{
    proof {
        lemma_pow256_mono(0, 8);
        assert(pow256(8) == 0x1_0000_0000_0000_0000) by {
            reveal_with_fuel(pow256, 9);
        }
    }
    let bn = b.len();
    let mut r: u64 = 0;
    let mut k: usize = n;
    proof {
        assert(b@.subrange(p + n, p + n) =~= Seq::<u8>::empty());
    }
    while k > 0
        invariant
            bn == b@.len(),
            p + n <= b@.len(),
            1 <= n <= 8,
            k <= n,
            r as int == le_val(b@.subrange(p + k, p + n)),
            r < pow256((n - k) as nat),
            pow256(8) == 0x1_0000_0000_0000_0000,
        decreases k,
    {
        k = k - 1;
        proof {
            lemma_pow256_mono((n - k - 1) as nat, 7);
            assert(pow256(7) == 0x100_0000_0000_0000) by {
                reveal_with_fuel(pow256, 9);
            }
            assert(b@.subrange(p + k, p + n).drop_first() =~= b@.subrange(p + k + 1, p + n));
            assert(le_val(b@.subrange(p + k, p + n)) == b@[p + k] + 256 * le_val(
                b@.subrange(p + k + 1, p + n),
            ));
            lemma_le_val_bound(b@.subrange(p + k, p + n));
            assert(b@.subrange(p + k, p + n).len() == n - k);
            lemma_pow256_mono((n - k) as nat, 8);
        }
        r = r * 256 + (b[p + k] as u64);
    }
    r
}

/// Appends the variable-width encoding of `x`.
fn encode_varint(out: &mut Vec<u8>, x: u64)
    ensures
        final(out)@ == old(out)@ + varint_bytes(x),
{
    let ghost pre = out@;
    if x < 251 {
        out.push(x as u8);
        proof {
            assert(out@ =~= pre + varint_bytes(x));
        }
    } else if x <= 0xFFFF {
        out.push(251);
        write_le(out, x, 2);
        proof {
            assert(out@ =~= pre + varint_bytes(x));
        }
    } else if x <= 0xFFFF_FFFF {
        out.push(252);
        write_le(out, x, 4);
        proof {
            assert(out@ =~= pre + varint_bytes(x));
        }
    } else {
        out.push(253);
        write_le(out, x, 8);
        proof {
            assert(out@ =~= pre + varint_bytes(x));
        }
    }
}

/// Decodes a variable-width value at `p`.
fn decode_varint(b: &Vec<u8>, p: usize) -> (r: Option<(u64, usize)>)
    ensures
        match r {
            Some(v) => spec_decode_varint(b@, p as int) == Some((v.0, v.1 as int)) && v.1
                <= b@.len(),
            None => spec_decode_varint(b@, p as int) is None,
        },
{
    let n = b.len();
    if p >= n {
        return None;
    }
    let tag = b[p];
    proof {
        lemma_pow256_mono(0, 8);
        assert(pow256(2) == 0x1_0000 && pow256(4) == 0x1_0000_0000 && pow256(8)
            == 0x1_0000_0000_0000_0000) by {
            reveal_with_fuel(pow256, 9);
        }
    }
    if tag < 251 {
        Some((tag as u64, p + 1))
    } else if tag == 251 {
        if n >= 3 && p <= n - 3 {
            proof {
                lemma_le_val_bound(b@.subrange(p + 1, p + 3));
            }
            Some((read_le(b, p + 1, 2), p + 3))
        } else {
            None
        }
    } else if tag == 252 {
        if n >= 5 && p <= n - 5 {
            proof {
                lemma_le_val_bound(b@.subrange(p + 1, p + 5));
            }
            Some((read_le(b, p + 1, 4), p + 5))
        } else {
            None
        }
    } else if tag == 253 {
        if n >= 9 && p <= n - 9 {
            proof {
                lemma_le_val_bound(b@.subrange(p + 1, p + 9));
            }
            Some((read_le(b, p + 1, 8), p + 9))
        } else {
            None
        }
    } else {
        None
    }
}

/// The on-disk shape of one entry: only what the cache stores.
pub struct DiskEntryV2 {
    pub path: String,
    pub size: u64,
    pub modified_ms: u64,
    pub flags: u8,
}

impl DiskEntryV2 {
    /// Projects an entry onto its stored fields.
    pub fn from_entry(entry: &FileEntry) -> (r: Self)
        ensures
            r.path == entry.path,
            r.size == entry.size,
            r.modified_ms == entry.modified_ms,
            r.flags == spec_flags(entry.is_dir, entry.is_hidden),
    {
        let mut flags: u8 = 0;
        if entry.is_dir {
            flags = flags + 1;
        }
        if entry.is_hidden {
            flags = flags + 2;
        }
        DiskEntryV2 { path: entry.path.clone(), size: entry.size, modified_ms: entry.modified_ms, flags }
    }

    /// Rebuilds a full entry, deriving the name and both lowercase keys from
    /// the stored path.
    pub fn to_entry(&self) -> (r: FileEntry)
        ensures
            r.wf(),
            r.name@ == spec_file_name(self.path@),
            r.path == self.path,
            r.drive == 0 && r.frn == 0 && r.parent_frn == 0,
            r.size == self.size,
            r.modified_ms == self.modified_ms,
            r.is_dir == (self.flags % 2 == 1),
            r.is_hidden == ((self.flags / 2) % 2 == 1),
    {
        let name = crate::text::file_name_from_normalized_path(self.path.as_str());
        FileEntry::new(
            name,
            self.path.clone(),
            0,
            0,
            0,
            self.size,
            self.modified_ms,
            self.flags % 2 == 1,
            (self.flags / 2) % 2 == 1,
        )
    }
}

/// Relies on String::from_utf8: succeeds exactly on valid UTF-8 input and
/// returns the string of those bytes.
#[verifier::external_body]
fn string_from_utf8(v: Vec<u8>) -> (r: Option<String>)
    ensures
        r is Some <==> valid_utf8(v@),
        r is Some ==> r->0@ == decode_utf8(v@),
{
    match String::from_utf8(v) {
        Ok(s) => Some(s),
        Err(_) => None,
    }
}

/// Appends the encoding of one entry's record.
fn encode_record(out: &mut Vec<u8>, e: &FileEntry)
    ensures
        final(out)@ == old(out)@ + spec_encode_record(spec_record(*e)),
{
    let ghost pre = out@;
    let pb = e.path.as_str().as_bytes();
    proof {
        assert(pb@ == encode_utf8(e.path@));
    }
    encode_varint(out, pb.len() as u64);
    out.extend_from_slice(pb);
    encode_varint(out, e.size);
    encode_varint(out, e.modified_ms);
    let mut flags: u8 = 0;
    if e.is_dir {
        flags = flags + 1;
    }
    if e.is_hidden {
        flags = flags + 2;
    }
    out.push(flags);
    proof {
        assert(out@ =~= pre + spec_encode_record(spec_record(*e)));
    }
}

/// Encodes a whole entry table as a cache image.
pub fn encode_cache(entries: &Vec<FileEntry>) -> (r: Vec<u8>)
    ensures
        r@ == spec_encode_cache(entries@),
{
    let mut out: Vec<u8> = Vec::new();
    out.push(0x52);
    out.push(0x53);
    out.push(0x49);
    out.push(0x58);
    out.push(2);
    out.push(1);
    out.push(0);
    out.push(0);
    proof {
        assert(out@ =~= spec_header());
    }
    encode_varint(&mut out, entries.len() as u64);
    let ghost whole = spec_encode_cache(entries@);
    proof {
        assert(out@ + spec_encode_records(entries@, 0) =~= whole);
    }
    let mut i: usize = 0;
    while i < entries.len()
        invariant
            i <= entries@.len(),
            whole == spec_encode_cache(entries@),
            out@ + spec_encode_records(entries@, i as int) == whole,
        decreases entries@.len() - i,
    {
        let ghost pre = out@;
        encode_record(&mut out, &entries[i]);
        i = i + 1;
        proof {
            assert(spec_encode_records(entries@, i - 1) == spec_encode_record(
                spec_record(entries@[i - 1]),
            ) + spec_encode_records(entries@, i as int));
            assert(out@ + spec_encode_records(entries@, i as int) =~= pre + spec_encode_records(
                entries@,
                i - 1,
            ));
        }
    }
    proof {
        assert(spec_encode_records(entries@, entries@.len() as int) =~= Seq::<u8>::empty());
        assert(out@ =~= whole);
    }
    out
}

/// Decodes one record at `p` into a rebuilt entry.
fn decode_record(b: &Vec<u8>, p: usize) -> (r: Option<(FileEntry, usize)>)
    ensures
        match r {
            Some(v) => {
                &&& spec_decode_record(b@, p as int) == Some(
                    (
                        (v.0.path@, v.0.size, v.0.modified_ms, v.0.is_dir, v.0.is_hidden),
                        v.1 as int,
                    ),
                )
                &&& v.1 <= b@.len()
                &&& v.0.wf()
                &&& v.0.name@ == spec_file_name(v.0.path@)
                &&& v.0.drive == 0 && v.0.frn == 0 && v.0.parent_frn == 0
            },
            None => spec_decode_record(b@, p as int) is None,
        },
{
    let n = b.len();
    let (plen, p1) = match decode_varint(b, p) {
        Some(v) => v,
        None => {
            return None;
        },
    };
    if plen > (n - p1) as u64 {
        return None;
    }
    let plen_us = plen as usize;
    let mut pathbuf: Vec<u8> = Vec::new();
    let mut q: usize = 0;
    while q < plen_us
        invariant
            q <= plen_us,
            n == b@.len(),
            p1 + plen_us <= b@.len(),
            pathbuf@ == b@.subrange(p1 as int, p1 + q),
        decreases plen_us - q,
    {
        pathbuf.push(b[p1 + q]);
        q = q + 1;
        proof {
            assert(pathbuf@ =~= b@.subrange(p1 as int, p1 + q));
        }
    }
    let path = match string_from_utf8(pathbuf) {
        Some(s) => s,
        None => {
            return None;
        },
    };
    let (size, p2) = match decode_varint(b, p1 + plen_us) {
        Some(v) => v,
        None => {
            return None;
        },
    };
    let (modified, p3) = match decode_varint(b, p2) {
        Some(v) => v,
        None => {
            return None;
        },
    };
    if p3 >= n {
        return None;
    }
    let flags = b[p3];
    let de = DiskEntryV2 { path, size, modified_ms: modified, flags };
    let entry = de.to_entry();
    Some((entry, p3 + 1))
}

/// Decodes a whole cache image in the current format; any mismatch is a
/// cache format error.
pub fn load_cache_v2(bytes: &Vec<u8>) -> (r: Result<Vec<FileEntry>, EngineError>)
    ensures
        match r {
            Ok(es) => {
                &&& spec_decode_cache(bytes@) is Some
                &&& ({
                    let recs = spec_decode_cache(bytes@)->0;
                    &&& es@.len() == recs.len()
                    &&& forall|k: int|
                        0 <= k < es@.len() ==> {
                            let e = #[trigger] es@[k];
                            &&& recs[k] == (e.path@, e.size, e.modified_ms, e.is_dir, e.is_hidden)
                            &&& e.wf()
                            &&& e.name@ == spec_file_name(e.path@)
                            &&& e.drive == 0 && e.frn == 0 && e.parent_frn == 0
                        }
                })
            },
            Err(err) => err == EngineError::CacheFormatError && spec_decode_cache(bytes@) is None,
        },
{
    let n = bytes.len();
    if n < 8 {
        return Err(EngineError::CacheFormatError);
    }
    if !(bytes[0] == 0x52 && bytes[1] == 0x53 && bytes[2] == 0x49 && bytes[3] == 0x58) {
        return Err(EngineError::CacheFormatError);
    }
    if bytes[4] != 2 || bytes[5] != 1 {
        return Err(EngineError::CacheFormatError);
    }
    let (count, p0) = match decode_varint(bytes, 8) {
        Some(v) => v,
        None => {
            return Err(EngineError::CacheFormatError);
        },
    };
    let mut out: Vec<FileEntry> = Vec::new();
    let ghost mut recs_done: Seq<(Seq<char>, u64, u64, bool, bool)> = Seq::empty();
    let mut p: usize = p0;
    let mut k: u64 = 0;
    proof {
        assert(spec_decode_records(bytes@, p0 as int, 0nat) == Some(
            (Seq::<(Seq<char>, u64, u64, bool, bool)>::empty(), p0 as int),
        ));
    }
    while k < count
        invariant
            k <= count,
            p <= bytes@.len(),
            bytes@.len() >= 8,
            n == bytes@.len(),
            bytes@[0] == 0x52 && bytes@[1] == 0x53 && bytes@[2] == 0x49 && bytes@[3] == 0x58,
            bytes@[4] == 2 && bytes@[5] == 1,
            spec_decode_varint(bytes@, 8) == Some((count, p0 as int)),
            out@.len() == recs_done.len(),
            forall|q: int|
                0 <= q < out@.len() ==> {
                    let e = #[trigger] out@[q];
                    &&& recs_done[q] == (e.path@, e.size, e.modified_ms, e.is_dir, e.is_hidden)
                    &&& e.wf()
                    &&& e.name@ == spec_file_name(e.path@)
                    &&& e.drive == 0 && e.frn == 0 && e.parent_frn == 0
                },
            match spec_decode_records(bytes@, p as int, (count - k) as nat) {
                Some(v) => spec_decode_records(bytes@, p0 as int, count as nat) == Some(
                    (recs_done + v.0, v.1),
                ),
                None => spec_decode_records(bytes@, p0 as int, count as nat) is None,
            },
        decreases count - k,
    {
        let ghost old_done = recs_done;
        match decode_record(bytes, p) {
            Some((entry, p_next)) => {
                proof {
                    let rec = (entry.path@, entry.size, entry.modified_ms, entry.is_dir, entry.is_hidden);
                    assert(spec_decode_records(bytes@, p as int, (count - k) as nat) == (
                    match spec_decode_records(bytes@, p_next as int, (count - k - 1) as nat) {
                        Some(v) => Some((seq![rec] + v.0, v.1)),
                        None => None::<(Seq<(Seq<char>, u64, u64, bool, bool)>, int)>,
                    }));
                    recs_done = recs_done.push(rec);
                    match spec_decode_records(bytes@, p_next as int, (count - k - 1) as nat) {
                        Some(v) => {
                            assert(old_done + (seq![rec] + v.0) =~= recs_done + v.0);
                        },
                        None => {},
                    }
                }
                out.push(entry);
                p = p_next;
            },
            None => {
                proof {
                    assert(spec_decode_records(bytes@, p as int, (count - k) as nat) is None);
                    assert(spec_decode_cache(bytes@) is None);
                }
                return Err(EngineError::CacheFormatError);
            },
        }
        k = k + 1;
    }
    proof {
        assert(spec_decode_records(bytes@, p as int, 0nat) == Some(
            (Seq::<(Seq<char>, u64, u64, bool, bool)>::empty(), p as int),
        ));
        assert(recs_done + Seq::<(Seq<char>, u64, u64, bool, bool)>::empty() =~= recs_done);
    }
    if p != n {
        return Err(EngineError::CacheFormatError);
    }
    Ok(out)
}

/// Decodes a length-prefixed string of the legacy format: an eight-byte
/// little-endian byte count, then that many UTF-8 bytes.
pub open spec fn spec_v1_string(b: Seq<u8>, p: int) -> Option<(Seq<char>, int)> {
    if p < 0 || p + 8 > b.len() {
        None
    } else {
        let n = le_val(b.subrange(p, p + 8));
        if p + 8 + n > b.len() {
            None
        } else {
            let sb = b.subrange(p + 8, p + 8 + n);
            if valid_utf8(sb) {
                Some((decode_utf8(sb), p + 8 + n))
            } else {
                None
            }
        }
    }
}

/// Decodes a boolean of the legacy format: one byte, zero or one.
pub open spec fn spec_v1_bool(b: Seq<u8>, p: int) -> Option<(bool, int)> {
    if p < 0 || p >= b.len() {
        None
    } else if b[p] == 0 {
        Some((false, p + 1))
    } else if b[p] == 1 {
        Some((true, p + 1))
    } else {
        None
    }
}

/// Decodes a fixed-width unsigned value of the legacy format.
pub open spec fn spec_v1_u64(b: Seq<u8>, p: int) -> Option<(u64, int)> {
    if p < 0 || p + 8 > b.len() {
        None
    } else {
        Some((le_val(b.subrange(p, p + 8)) as u64, p + 8))
    }
}

/// One legacy record: name, lowercase name, path, lowercase path, size,
/// modified time, directory and hidden flags, all stored verbosely.
pub open spec fn spec_v1_record(b: Seq<u8>, p: int) -> Option<
    ((Seq<char>, Seq<char>, Seq<char>, Seq<char>, u64, u64, bool, bool), int),
> {
    match spec_v1_string(b, p) {
        None => None,
        Some((name, p1)) => match spec_v1_string(b, p1) {
            None => None,
            Some((name_lower, p2)) => match spec_v1_string(b, p2) {
                None => None,
                Some((path, p3)) => match spec_v1_string(b, p3) {
                    None => None,
                    Some((path_lower, p4)) => match spec_v1_u64(b, p4) {
                        None => None,
                        Some((size, p5)) => match spec_v1_u64(b, p5) {
                            None => None,
                            Some((modified, p6)) => match spec_v1_bool(b, p6) {
                                None => None,
                                Some((is_dir, p7)) => match spec_v1_bool(b, p7) {
                                    None => None,
                                    Some((is_hidden, p8)) => Some(
                                        (
                                            (
                                                name,
                                                name_lower,
                                                path,
                                                path_lower,
                                                size,
                                                modified,
                                                is_dir,
                                                is_hidden,
                                            ),
                                            p8,
                                        ),
                                    ),
                                },
                            },
                        },
                    },
                },
            },
        },
    }
}

/// Decodes `n` legacy records starting at `p`.
pub open spec fn spec_v1_records(b: Seq<u8>, p: int, n: nat) -> Option<
    (Seq<(Seq<char>, Seq<char>, Seq<char>, Seq<char>, u64, u64, bool, bool)>, int),
>
    decreases n,
{
    if n == 0 {
        Some((Seq::empty(), p))
    } else {
        match spec_v1_record(b, p) {
            Some((rec, p1)) => match spec_v1_records(b, p1, (n - 1) as nat) {
                Some((recs, p2)) => Some((seq![rec] + recs, p2)),
                None => None,
            },
            None => None,
        }
    }
}

/// Decodes a legacy cache image: a four-byte version that must be one, an
/// eight-byte record count, then the records. Trailing bytes are tolerated,
/// as the legacy reader tolerated them.
pub open spec fn spec_decode_v1(b: Seq<u8>) -> Option<
    Seq<(Seq<char>, Seq<char>, Seq<char>, Seq<char>, u64, u64, bool, bool)>,
> {
    if b.len() < 12 {
        None
    } else if le_val(b.subrange(0, 4)) != 1 {
        None
    } else {
        let n = le_val(b.subrange(4, 12));
        match spec_v1_records(b, 12, n as nat) {
            Some((recs, _)) => Some(recs),
            None => None,
        }
    }
}

/// Decodes one legacy string at `p`.
fn decode_v1_string(b: &Vec<u8>, p: usize) -> (r: Option<(String, usize)>)
    ensures
        match r {
            Some(v) => spec_v1_string(b@, p as int) == Some((v.0@, v.1 as int)) && v.1 <= b@.len(),
            None => spec_v1_string(b@, p as int) is None,
        },
{
    let bn = b.len();
    if bn < 8 || p > bn - 8 {
        return None;
    }
    proof {
        lemma_pow256_mono(0, 8);
        assert(pow256(8) == 0x1_0000_0000_0000_0000) by {
            reveal_with_fuel(pow256, 9);
        }
        lemma_le_val_bound(b@.subrange(p as int, p + 8));
    }
    let n64 = read_le(b, p, 8);
    if n64 > (bn - (p + 8)) as u64 {
        return None;
    }
    let n = n64 as usize;
    let mut sb: Vec<u8> = Vec::new();
    let mut q: usize = 0;
    while q < n
        invariant
            q <= n,
            bn == b@.len(),
            p + 8 + n <= b@.len(),
            sb@ == b@.subrange(p + 8, p + 8 + q),
        decreases n - q,
    {
        sb.push(b[p + 8 + q]);
        q = q + 1;
        proof {
            assert(sb@ =~= b@.subrange(p + 8, p + 8 + q));
        }
    }
    match string_from_utf8(sb) {
        Some(s) => Some((s, p + 8 + n)),
        None => None,
    }
}

/// Decodes one legacy boolean at `p`.
fn decode_v1_bool(b: &Vec<u8>, p: usize) -> (r: Option<(bool, usize)>)
    ensures
        match r {
            Some(v) => spec_v1_bool(b@, p as int) == Some((v.0, v.1 as int)) && v.1 <= b@.len(),
            None => spec_v1_bool(b@, p as int) is None,
        },
{
    if p >= b.len() {
        return None;
    }
    let byte = b[p];
    if byte == 0 {
        Some((false, p + 1))
    } else if byte == 1 {
        Some((true, p + 1))
    } else {
        None
    }
}

/// Decodes one legacy fixed-width value at `p`.
fn decode_v1_u64(b: &Vec<u8>, p: usize) -> (r: Option<(u64, usize)>)
    ensures
        match r {
            Some(v) => spec_v1_u64(b@, p as int) == Some((v.0, v.1 as int)) && v.1 <= b@.len(),
            None => spec_v1_u64(b@, p as int) is None,
        },
{
    let bn = b.len();
    if bn < 8 || p > bn - 8 {
        return None;
    }
    proof {
        lemma_pow256_mono(0, 8);
        assert(pow256(8) == 0x1_0000_0000_0000_0000) by {
            reveal_with_fuel(pow256, 9);
        }
        lemma_le_val_bound(b@.subrange(p as int, p + 8));
    }
    Some((read_le(b, p, 8), p + 8))
}

/// Decodes one legacy record at `p`, keeping the stored name and lowercase
/// keys as they are.
fn decode_v1_record(b: &Vec<u8>, p: usize) -> (r: Option<(FileEntry, usize)>)
    ensures
        match r {
            Some(v) => {
                &&& spec_v1_record(b@, p as int) == Some(
                    (
                        (
                            v.0.name@,
                            v.0.name_lower@,
                            v.0.path@,
                            v.0.path_lower@,
                            v.0.size,
                            v.0.modified_ms,
                            v.0.is_dir,
                            v.0.is_hidden,
                        ),
                        v.1 as int,
                    ),
                )
                &&& v.1 <= b@.len()
                &&& v.0.drive == 0 && v.0.frn == 0 && v.0.parent_frn == 0
            },
            None => spec_v1_record(b@, p as int) is None,
        },
{
    let (name, p1) = match decode_v1_string(b, p) {
        Some(v) => v,
        None => {
            return None;
        },
    };
    let (name_lower, p2) = match decode_v1_string(b, p1) {
        Some(v) => v,
        None => {
            return None;
        },
    };
    let (path, p3) = match decode_v1_string(b, p2) {
        Some(v) => v,
        None => {
            return None;
        },
    };
    let (path_lower, p4) = match decode_v1_string(b, p3) {
        Some(v) => v,
        None => {
            return None;
        },
    };
    let (size, p5) = match decode_v1_u64(b, p4) {
        Some(v) => v,
        None => {
            return None;
        },
    };
    let (modified_ms, p6) = match decode_v1_u64(b, p5) {
        Some(v) => v,
        None => {
            return None;
        },
    };
    let (is_dir, p7) = match decode_v1_bool(b, p6) {
        Some(v) => v,
        None => {
            return None;
        },
    };
    let (is_hidden, p8) = match decode_v1_bool(b, p7) {
        Some(v) => v,
        None => {
            return None;
        },
    };
    let entry = FileEntry {
        name,
        name_lower,
        path,
        path_lower,
        drive: 0,
        frn: 0,
        parent_frn: 0,
        size,
        modified_ms,
        is_dir,
        is_hidden,
    };
    Some((entry, p8))
}

/// Decodes a whole legacy cache image. The stored name and lowercase keys
/// are kept verbatim, as the legacy reader kept them.
pub fn decode_cache_v1(bytes: &Vec<u8>) -> (r: Result<Vec<FileEntry>, EngineError>)
    ensures
        match r {
            Ok(es) => {
                &&& spec_decode_v1(bytes@) is Some
                &&& ({
                    let recs = spec_decode_v1(bytes@)->0;
                    &&& es@.len() == recs.len()
                    &&& forall|k: int|
                        0 <= k < es@.len() ==> {
                            let e = #[trigger] es@[k];
                            &&& recs[k] == (
                                e.name@,
                                e.name_lower@,
                                e.path@,
                                e.path_lower@,
                                e.size,
                                e.modified_ms,
                                e.is_dir,
                                e.is_hidden,
                            )
                            &&& e.drive == 0 && e.frn == 0 && e.parent_frn == 0
                        }
                })
            },
            Err(err) => err == EngineError::CacheFormatError && spec_decode_v1(bytes@) is None,
        },
{
    let n = bytes.len();
    if n < 12 {
        return Err(EngineError::CacheFormatError);
    }
    proof {
        lemma_pow256_mono(0, 8);
        assert(pow256(4) == 0x1_0000_0000 && pow256(8) == 0x1_0000_0000_0000_0000) by {
            reveal_with_fuel(pow256, 9);
        }
        lemma_le_val_bound(bytes@.subrange(0, 4));
        lemma_le_val_bound(bytes@.subrange(4, 12));
    }
    let version = read_le(bytes, 0, 4);
    if version != 1 {
        return Err(EngineError::CacheFormatError);
    }
    let count = read_le(bytes, 4, 8);
    let mut out: Vec<FileEntry> = Vec::new();
    let ghost mut recs_done: Seq<(Seq<char>, Seq<char>, Seq<char>, Seq<char>, u64, u64, bool, bool)> =
        Seq::empty();
    let mut p: usize = 12;
    let mut k: u64 = 0;
    proof {
        assert(spec_v1_records(bytes@, 12, 0nat) == Some(
            (Seq::<(Seq<char>, Seq<char>, Seq<char>, Seq<char>, u64, u64, bool, bool)>::empty(), 12int),
        ));
    }
    while k < count
        invariant
            k <= count,
            p <= bytes@.len(),
            n == bytes@.len(),
            n >= 12,
            le_val(bytes@.subrange(0, 4)) == 1,
            count == le_val(bytes@.subrange(4, 12)) as u64,
            out@.len() == recs_done.len(),
            forall|q: int|
                0 <= q < out@.len() ==> {
                    let e = #[trigger] out@[q];
                    &&& recs_done[q] == (
                        e.name@,
                        e.name_lower@,
                        e.path@,
                        e.path_lower@,
                        e.size,
                        e.modified_ms,
                        e.is_dir,
                        e.is_hidden,
                    )
                    &&& e.drive == 0 && e.frn == 0 && e.parent_frn == 0
                },
            match spec_v1_records(bytes@, p as int, (count - k) as nat) {
                Some(v) => spec_v1_records(bytes@, 12, count as nat) == Some((recs_done + v.0, v.1)),
                None => spec_v1_records(bytes@, 12, count as nat) is None,
            },
        decreases count - k,
    {
        let ghost old_done = recs_done;
        match decode_v1_record(bytes, p) {
            Some((entry, p_next)) => {
                proof {
                    let rec = (
                        entry.name@,
                        entry.name_lower@,
                        entry.path@,
                        entry.path_lower@,
                        entry.size,
                        entry.modified_ms,
                        entry.is_dir,
                        entry.is_hidden,
                    );
                    recs_done = recs_done.push(rec);
                    match spec_v1_records(bytes@, p_next as int, (count - k - 1) as nat) {
                        Some(v) => {
                            assert(old_done + (seq![rec] + v.0) =~= recs_done + v.0);
                        },
                        None => {},
                    }
                }
                out.push(entry);
                p = p_next;
            },
            None => {
                proof {
                    assert(spec_v1_records(bytes@, p as int, (count - k) as nat) is None);
                    lemma_pow256_mono(0, 8);
                    assert(pow256(8) == 0x1_0000_0000_0000_0000) by {
                        reveal_with_fuel(pow256, 9);
                    }
                    lemma_le_val_bound(bytes@.subrange(4, 12));
                    assert(le_val(bytes@.subrange(4, 12)) as nat == count as nat);
                    assert(spec_decode_v1(bytes@) is None);
                }
                return Err(EngineError::CacheFormatError);
            },
        }
        k = k + 1;
    }
    proof {
        lemma_pow256_mono(0, 8);
        assert(pow256(8) == 0x1_0000_0000_0000_0000) by {
            reveal_with_fuel(pow256, 9);
        }
        lemma_le_val_bound(bytes@.subrange(4, 12));
        assert(le_val(bytes@.subrange(4, 12)) as nat == count as nat);
        assert(spec_v1_records(bytes@, p as int, 0nat) == Some(
            (
                Seq::<(Seq<char>, Seq<char>, Seq<char>, Seq<char>, u64, u64, bool, bool)>::empty(),
                p as int,
            ),
        ));
        assert(recs_done + Seq::<
            (Seq<char>, Seq<char>, Seq<char>, Seq<char>, u64, u64, bool, bool),
        >::empty() =~= recs_done);
    }
    Ok(out)
}

/// What a successful legacy load yields: one entry per decoded record, each
/// field, the stored name and both stored lowercase keys taken verbatim.
pub open spec fn decode_cache_v1_post(b: Seq<u8>, es: Seq<FileEntry>) -> bool {
    &&& spec_decode_v1(b) is Some
    &&& ({
        let recs = spec_decode_v1(b)->0;
        &&& es.len() == recs.len()
        &&& forall|k: int|
            0 <= k < es.len() ==> {
                let e = #[trigger] es[k];
                &&& recs[k] == (
                    e.name@,
                    e.name_lower@,
                    e.path@,
                    e.path_lower@,
                    e.size,
                    e.modified_ms,
                    e.is_dir,
                    e.is_hidden,
                )
                &&& e.drive == 0 && e.frn == 0 && e.parent_frn == 0
            }
    })
}

/// Decodes a cache image of either format: the current one when the magic
/// prefix is there, the legacy one otherwise. The flag reports a legacy
/// image, which the caller should rewrite in the current format.
pub fn decode_cache(bytes: &Vec<u8>) -> (r: Result<(Vec<FileEntry>, bool), EngineError>)
    ensures
        spec_has_magic(bytes@) ==> match r {
            Ok(v) => v.1 == false && load_cache_v2_post(bytes@, v.0@),
            Err(err) => err == EngineError::CacheFormatError && spec_decode_cache(bytes@) is None,
        },
        !spec_has_magic(bytes@) ==> match r {
            Ok(v) => v.1 == true && decode_cache_v1_post(bytes@, v.0@),
            Err(err) => err == EngineError::CacheFormatError && spec_decode_v1(bytes@) is None,
        },
{
    let n = bytes.len();
    if n >= 8 && bytes[0] == 0x52 && bytes[1] == 0x53 && bytes[2] == 0x49 && bytes[3] == 0x58 {
        match load_cache_v2(bytes) {
            Ok(es) => Ok((es, false)),
            Err(e) => Err(e),
        }
    } else {
        match decode_cache_v1(bytes) {
            Ok(es) => Ok((es, true)),
            Err(e) => Err(e),
        }
    }
}

/// What a successful current-format load yields: the decoded records with
/// names and lowercase keys recomputed from the stored paths.
pub open spec fn load_cache_v2_post(b: Seq<u8>, es: Seq<FileEntry>) -> bool {
    &&& spec_decode_cache(b) is Some
    &&& ({
        let recs = spec_decode_cache(b)->0;
        &&& es.len() == recs.len()
        &&& forall|k: int|
            0 <= k < es.len() ==> {
                let e = #[trigger] es[k];
                &&& recs[k] == (e.path@, e.size, e.modified_ms, e.is_dir, e.is_hidden)
                &&& e.wf()
                &&& e.name@ == spec_file_name(e.path@)
                &&& e.drive == 0 && e.frn == 0 && e.parent_frn == 0
            }
    })
}

/// A slice of an embedded byte run is the matching slice of the run.
proof fn lemma_subrange_slice(b: Seq<u8>, p: int, enc: Seq<u8>, a: int, c: int)
    requires
        0 <= p,
        p + enc.len() <= b.len(),
        b.subrange(p, p + enc.len()) == enc,
        0 <= a <= c <= enc.len(),
    ensures
        b.subrange(p + a, p + c) == enc.subrange(a, c),
{
    assert forall|i: int| 0 <= i < c - a implies b.subrange(p + a, p + c)[i] == enc.subrange(
        a,
        c,
    )[i] by {
        assert(b.subrange(p + a, p + c)[i] == b[p + a + i]);
        assert(b.subrange(p, p + enc.len())[a + i] == b[p + a + i]);
    }
    assert(b.subrange(p + a, p + c) =~= enc.subrange(a, c));
}

/// Decoding an embedded variable-width encoding returns the encoded value
/// and stops right after it.
proof fn lemma_varint_roundtrip(b: Seq<u8>, p: int, x: u64)
    requires
        0 <= p,
        p + varint_bytes(x).len() <= b.len(),
        b.subrange(p, p + varint_bytes(x).len()) == varint_bytes(x),
    ensures
        spec_decode_varint(b, p) == Some((x, p + varint_bytes(x).len())),
{
    assert(pow256(2) == 0x1_0000 && pow256(4) == 0x1_0000_0000 && pow256(8)
        == 0x1_0000_0000_0000_0000) by {
        reveal_with_fuel(pow256, 9);
    }
    let enc = varint_bytes(x);
    if x < 251 {
        assert(b.subrange(p, p + 1)[0] == b[p]);
        assert(b[p] == x as u8);
    } else {
        let w: nat = if x <= 0xFFFF {
            2nat
        } else if x <= 0xFFFF_FFFF {
            4nat
        } else {
            8nat
        };
        lemma_le_bytes_len(x, w);
        assert(b.subrange(p, p + enc.len())[0] == b[p]);
        assert(enc[0] == if x <= 0xFFFF {
            251u8
        } else if x <= 0xFFFF_FFFF {
            252u8
        } else {
            253u8
        });
        lemma_subrange_slice(b, p, enc, 1, enc.len() as int);
        assert(enc.subrange(1, enc.len() as int) =~= le_bytes(x, w));
        if x <= 0xFFFF {
            lemma_le_roundtrip(x, 2);
        } else if x <= 0xFFFF_FFFF {
            lemma_le_roundtrip(x, 4);
        } else {
            lemma_le_roundtrip(x, 8);
        }
    }
}

/// Decoding an embedded record encoding returns the record and stops right
/// after it.
proof fn lemma_record_roundtrip(b: Seq<u8>, p: int, rec: (Seq<char>, u64, u64, bool, bool))
    requires
        0 <= p,
        encode_utf8(rec.0).len() < 0x1_0000_0000_0000_0000,
        p + spec_encode_record(rec).len() <= b.len(),
        b.subrange(p, p + spec_encode_record(rec).len()) == spec_encode_record(rec),
    ensures
        spec_decode_record(b, p) == Some((rec, p + spec_encode_record(rec).len())),
{
    let pb = encode_utf8(rec.0);
    let v0 = varint_bytes(pb.len() as u64);
    let v1 = varint_bytes(rec.1);
    let v2 = varint_bytes(rec.2);
    let f = spec_flags(rec.3, rec.4);
    let enc = spec_encode_record(rec);
    assert(enc == v0 + pb + v1 + v2 + seq![f]);
    let l0 = v0.len() as int;
    let lp = pb.len() as int;
    let l1 = v1.len() as int;
    let l2 = v2.len() as int;
    let p1 = p + l0;
    let p2 = p1 + lp;
    let p3 = p2 + l1;
    let p4 = p3 + l2;
    lemma_subrange_slice(b, p, enc, 0, l0);
    assert(enc.subrange(0, l0) =~= v0);
    lemma_varint_roundtrip(b, p, pb.len() as u64);
    assert((pb.len() as u64) as int == pb.len() as int);
    lemma_subrange_slice(b, p, enc, l0, l0 + lp);
    assert(enc.subrange(l0, l0 + lp) =~= pb);
    encode_utf8_valid_utf8(rec.0);
    encode_utf8_decode_utf8(rec.0);
    lemma_subrange_slice(b, p, enc, l0 + lp, l0 + lp + l1);
    assert(enc.subrange(l0 + lp, l0 + lp + l1) =~= v1);
    lemma_varint_roundtrip(b, p2, rec.1);
    lemma_subrange_slice(b, p, enc, l0 + lp + l1, l0 + lp + l1 + l2);
    assert(enc.subrange(l0 + lp + l1, l0 + lp + l1 + l2) =~= v2);
    lemma_varint_roundtrip(b, p3, rec.2);
    assert(b.subrange(p, p + enc.len())[enc.len() - 1] == b[p4]);
    assert(enc[enc.len() - 1] == f);
    assert(f % 2 == 1 <==> rec.3);
    assert((f / 2) % 2 == 1 <==> rec.4);
}

/// The stored records of the entries from `i` on.
pub open spec fn spec_records(entries: Seq<FileEntry>, i: int) -> Seq<
    (Seq<char>, u64, u64, bool, bool),
>
    decreases entries.len() - i,
{
    if i < 0 || i >= entries.len() {
        Seq::empty()
    } else {
        seq![spec_record(entries[i])] + spec_records(entries, i + 1)
    }
}

/// The record list is as long as the entry list and records each entry.
pub proof fn lemma_spec_records_shape(entries: Seq<FileEntry>, i: int)
    requires
        0 <= i <= entries.len(),
    ensures
        spec_records(entries, i).len() == entries.len() - i,
        forall|k: int|
            i <= k < entries.len() ==> #[trigger] spec_records(entries, i)[k - i] == spec_record(
                entries[k],
            ),
    decreases entries.len() - i,
{
    if i < entries.len() {
        lemma_spec_records_shape(entries, i + 1);
        assert forall|k: int| i <= k < entries.len() implies #[trigger] spec_records(entries, i)[k
            - i] == spec_record(entries[k]) by {
            if k == i {
                assert(spec_records(entries, i)[0] == spec_record(entries[i]));
            } else {
                assert(spec_records(entries, i + 1)[k - (i + 1)] == spec_record(entries[k]));
                assert(spec_records(entries, i)[k - i] == spec_records(entries, i + 1)[k - (i
                    + 1)]);
            }
        }
    }
}

/// Decoding an embedded record-list encoding returns all the records.
proof fn lemma_records_roundtrip(b: Seq<u8>, p: int, entries: Seq<FileEntry>, i: int)
    requires
        0 <= i <= entries.len(),
        0 <= p,
        forall|k: int|
            i <= k < entries.len() ==> encode_utf8(#[trigger] entries[k].path@).len()
                < 0x1_0000_0000_0000_0000,
        p + spec_encode_records(entries, i).len() <= b.len(),
        b.subrange(p, p + spec_encode_records(entries, i).len()) == spec_encode_records(entries, i),
    ensures
        spec_decode_records(b, p, (entries.len() - i) as nat) == Some(
            (spec_records(entries, i), p + spec_encode_records(entries, i).len()),
        ),
    decreases entries.len() - i,
{
    if i == entries.len() {
        assert(spec_records(entries, i) =~= Seq::<(Seq<char>, u64, u64, bool, bool)>::empty());
    } else {
        let enc_i = spec_encode_record(spec_record(entries[i]));
        let rest = spec_encode_records(entries, i + 1);
        assert(spec_encode_records(entries, i) == enc_i + rest);
        lemma_subrange_slice(b, p, spec_encode_records(entries, i), 0, enc_i.len() as int);
        assert(spec_encode_records(entries, i).subrange(0, enc_i.len() as int) =~= enc_i);
        lemma_record_roundtrip(b, p, spec_record(entries[i]));
        lemma_subrange_slice(
            b,
            p,
            spec_encode_records(entries, i),
            enc_i.len() as int,
            spec_encode_records(entries, i).len() as int,
        );
        assert(spec_encode_records(entries, i).subrange(
            enc_i.len() as int,
            spec_encode_records(entries, i).len() as int,
        ) =~= rest);
        lemma_records_roundtrip(b, p + enc_i.len(), entries, i + 1);
        assert(seq![spec_record(entries[i])] + spec_records(entries, i + 1) == spec_records(
            entries,
            i,
        ));
    }
}

/// Round trip of the cache codec: decoding an encoded entry table yields
/// exactly one record per entry, holding that entry's path, size, modified
/// time, and directory/hidden flags.
pub proof fn lemma_cache_round_trip(entries: Seq<FileEntry>)
    requires
        entries.len() < 0x1_0000_0000_0000_0000,
        forall|k: int|
            0 <= k < entries.len() ==> encode_utf8(#[trigger] entries[k].path@).len()
                < 0x1_0000_0000_0000_0000,
    ensures
        spec_decode_cache(spec_encode_cache(entries)) == Some(spec_records(entries, 0)),
        spec_records(entries, 0).len() == entries.len(),
        forall|k: int|
            0 <= k < entries.len() ==> #[trigger] spec_records(entries, 0)[k] == spec_record(
                entries[k],
            ),
{
    let b = spec_encode_cache(entries);
    let hdr = spec_header();
    let cnt = varint_bytes(entries.len() as u64);
    let recs = spec_encode_records(entries, 0);
    assert(b == hdr + cnt + recs);
    assert(b.len() >= 8);
    assert forall|i: int| 0 <= i < 8 implies b[i] == hdr[i] by {}
    assert(b[0] == 0x52 && b[1] == 0x53 && b[2] == 0x49 && b[3] == 0x58 && b[4] == 2 && b[5] == 1);
    let lc = cnt.len() as int;
    let lr = recs.len() as int;
    assert(b.subrange(8, 8 + lc) =~= cnt);
    lemma_varint_roundtrip(b, 8, entries.len() as u64);
    assert((entries.len() as u64) as nat == entries.len());
    assert(b.subrange(8 + lc, 8 + lc + lr) =~= recs);
    lemma_records_roundtrip(b, 8 + lc, entries, 0);
    assert(8 + lc + lr == b.len());
    lemma_spec_records_shape(entries, 0);
    assert forall|k: int| 0 <= k < entries.len() implies #[trigger] spec_records(entries, 0)[k]
        == spec_record(entries[k]) by {
        assert(spec_records(entries, 0)[k - 0] == spec_record(entries[k]));
    }
}

/// Round trip of the cache as the caller sees it: a table whose names are
/// derived from its paths and whose lowercase keys are in step comes back
/// from save-then-load with every stored field, and the recomputed names
/// and keys, equal to the originals.
pub proof fn lemma_round_trip_preserves_entries(entries: Seq<FileEntry>, loaded: Seq<FileEntry>)
    requires
        entries.len() < 0x1_0000_0000_0000_0000,
        forall|k: int|
            0 <= k < entries.len() ==> encode_utf8(#[trigger] entries[k].path@).len()
                < 0x1_0000_0000_0000_0000,
        forall|k: int|
            0 <= k < entries.len() ==> (#[trigger] entries[k]).wf() && entries[k].name@
                == spec_file_name(entries[k].path@),
        load_cache_v2_post(spec_encode_cache(entries), loaded),
    ensures
        loaded.len() == entries.len(),
        forall|k: int|
            0 <= k < entries.len() ==> {
                let o = #[trigger] entries[k];
                let l = loaded[k];
                &&& l.path@ == o.path@
                &&& l.size == o.size
                &&& l.modified_ms == o.modified_ms
                &&& l.is_dir == o.is_dir
                &&& l.is_hidden == o.is_hidden
                &&& l.name@ == o.name@
                &&& l.name_lower@ == o.name_lower@
                &&& l.path_lower@ == o.path_lower@
            },
{
    lemma_cache_round_trip(entries);
    assert forall|k: int| 0 <= k < entries.len() implies {
        let o = #[trigger] entries[k];
        let l = loaded[k];
        &&& l.path@ == o.path@
        &&& l.size == o.size
        &&& l.modified_ms == o.modified_ms
        &&& l.is_dir == o.is_dir
        &&& l.is_hidden == o.is_hidden
        &&& l.name@ == o.name@
        &&& l.name_lower@ == o.name_lower@
        &&& l.path_lower@ == o.path_lower@
    } by {
        let recs = spec_decode_cache(spec_encode_cache(entries))->0;
        assert(recs[k] == spec_record(entries[k]));
        assert(loaded[k].path@ == entries[k].path@);
    }
}

} // verus!
