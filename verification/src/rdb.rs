//! The binary snapshot decoder: parses the on-disk image far enough to
//! recover the hash-table section and restore the non-expired string keys.
//! Any malformed or truncated snapshot aborts the whole load and the store
//! falls back to an empty keyspace. Only the first buffer handed in is
//! examined; a snapshot whose header section runs past it is treated as
//! truncated (a known boundary of this decoder, kept deliberately).
use vstd::prelude::*;

use crate::store::{live, Config, Database, EntryView, StoredEntry};

verus! {

/// The section marker that precedes the hash-table sizes.
pub const HASHTABLE_MARKER: u8 = 251;

/// The record prefix that carries an expiry timestamp.
pub const EXPIRY_MARKER: u8 = 252;

/// A well-formed variable-width integer at `pos`. The top two bits of the
/// leading byte select the form: `00` a 6-bit value, `01` a 14-bit value,
/// `10` a 32-bit big-endian value in the next four bytes. The `11` form is
/// outside this decoder's scope and is refused rather than misread.
pub open spec fn varint_ok(s: Seq<u8>, pos: int) -> bool {
    &&& 0 <= pos < s.len()
    &&& s[pos] < 192
    &&& (64 <= s[pos] && s[pos] < 128 ==> pos + 2 <= s.len())
    &&& (128 <= s[pos] ==> pos + 5 <= s.len())
}

/// The value of the variable-width integer at `pos`.
pub open spec fn varint_val(s: Seq<u8>, pos: int) -> nat {
    if s[pos] < 64 {
        s[pos] as nat
    } else if s[pos] < 128 {
        ((s[pos] - 64) * 256 + s[pos + 1]) as nat
    } else {
        (s[pos + 1] * 0x1000000 + s[pos + 2] * 0x10000 + s[pos + 3] * 0x100 + s[pos + 4]) as nat
    }
}

/// The byte width of the variable-width integer at `pos`.
pub open spec fn varint_len(s: Seq<u8>, pos: int) -> int {
    if s[pos] < 64 {
        1
    } else if s[pos] < 128 {
        2
    } else {
        5
    }
}

/// Decodes the variable-width integer at `pos`: the value and its width.
fn length_encode_at(buf: &[u8], pos: usize) -> (r: Option<(usize, usize)>)
    requires
        pos <= buf@.len(),
    ensures
        match r {
            Some(vc) => {
                &&& varint_ok(buf@, pos as int)
                &&& vc.0 == varint_val(buf@, pos as int)
                &&& vc.1 == varint_len(buf@, pos as int)
                &&& pos + vc.1 <= buf@.len()
            },
            None => !varint_ok(buf@, pos as int),
        },
{
    if pos == buf.len() {
        return None;
    }
    let b0 = buf[pos];
    if b0 < 64 {
        Some((b0 as usize, 1))
    } else if b0 < 128 {
        if buf.len() - pos < 2 {
            return None;
        }
        let v = ((b0 - 64) as usize) * 256 + (buf[pos + 1] as usize);
        Some((v, 2))
    } else if b0 < 192 {
        if buf.len() - pos < 5 {
            return None;
        }
        let v: u32 = (buf[pos + 1] as u32) * 0x1000000 + (buf[pos + 2] as u32) * 0x10000 + (buf[pos
            + 3] as u32) * 0x100 + (buf[pos + 4] as u32);
        Some((v as usize, 5))
    } else {
        None
    }
}

/// Decodes the variable-width integer at the start of `buf`.
pub fn length_encode(buf: &[u8]) -> (r: Option<(usize, usize)>)
    ensures
        match r {
            Some(vc) => {
                &&& varint_ok(buf@, 0)
                &&& vc.0 == varint_val(buf@, 0)
                &&& vc.1 == varint_len(buf@, 0)
                &&& vc.1 <= buf@.len()
            },
            None => !varint_ok(buf@, 0),
        },
{
    length_encode_at(buf, 0)
}

/// The unsigned value of eight little-endian bytes at `pos`.
pub open spec fn le64_val(s: Seq<u8>, pos: int) -> nat {
    (s[pos] + s[pos + 1] * 0x100 + s[pos + 2] * 0x10000 + s[pos + 3] * 0x1000000 + s[pos + 4]
        * 0x100000000 + s[pos + 5] * 0x10000000000 + s[pos + 6] * 0x1000000000000 + s[pos + 7]
        * 0x100000000000000) as nat
}

/// Reads an 8-byte little-endian timestamp.
fn read_le64_at(buf: &[u8], pos: usize) -> (r: u64)
    requires
        pos + 8 <= buf@.len(),
    ensures
        r == le64_val(buf@, pos as int),
{
    (buf[pos] as u64) + (buf[pos + 1] as u64) * 0x100 + (buf[pos + 2] as u64) * 0x10000 + (buf[pos
        + 3] as u64) * 0x1000000 + (buf[pos + 4] as u64) * 0x100000000 + (buf[pos + 5] as u64)
        * 0x10000000000 + (buf[pos + 6] as u64) * 0x1000000000000 + (buf[pos + 7] as u64)
        * 0x100000000000000
}

/// Where the key length field of the record at `pos` starts: past the
/// expiry prefix (opcode and 8 timestamp bytes) if present, and the type
/// byte either way.
pub open spec fn record_body(s: Seq<u8>, pos: int) -> int {
    if s[pos] == EXPIRY_MARKER {
        pos + 10
    } else {
        pos + 1
    }
}

/// Start of the key bytes of the key/value pair whose lengths begin at `p`.
pub open spec fn key_start(s: Seq<u8>, p: int) -> int {
    p + varint_len(s, p)
}

/// Length of the key of the pair at `p`.
pub open spec fn key_len(s: Seq<u8>, p: int) -> nat {
    varint_val(s, p)
}

/// Where the value length field of the pair at `p` starts.
pub open spec fn val_field(s: Seq<u8>, p: int) -> int {
    key_start(s, p) + key_len(s, p)
}

/// Start of the value bytes of the pair at `p`.
pub open spec fn val_start(s: Seq<u8>, p: int) -> int {
    val_field(s, p) + varint_len(s, val_field(s, p))
}

/// Length of the value of the pair at `p`.
pub open spec fn val_len(s: Seq<u8>, p: int) -> nat {
    varint_val(s, val_field(s, p))
}

/// A well-formed length-prefixed key and value starting at `p`.
pub open spec fn kv_ok(s: Seq<u8>, p: int) -> bool {
    &&& varint_ok(s, p)
    &&& val_field(s, p) <= s.len()
    &&& varint_ok(s, val_field(s, p))
    &&& val_start(s, p) + val_len(s, p) <= s.len()
}

/// A well-formed record at `pos`: an optional expiry prefix, the type
/// byte, then a length-prefixed key and value.
pub open spec fn record_ok(s: Seq<u8>, pos: int) -> bool {
    &&& 0 <= pos < s.len()
    &&& (s[pos] == EXPIRY_MARKER ==> pos + 10 <= s.len())
    &&& kv_ok(s, record_body(s, pos))
}

/// The expiry carried by the record at `pos`, as milliseconds since the
/// Unix epoch.
pub open spec fn record_expiry(s: Seq<u8>, pos: int) -> Option<u64> {
    if s[pos] == EXPIRY_MARKER {
        Some(le64_val(s, pos + 1) as u64)
    } else {
        None
    }
}

/// The key of the record at `pos`.
pub open spec fn record_key(s: Seq<u8>, pos: int) -> Seq<u8> {
    s.subrange(
        key_start(s, record_body(s, pos)),
        key_start(s, record_body(s, pos)) + key_len(s, record_body(s, pos)),
    )
}

/// The stored entry the record at `pos` denotes.
pub open spec fn record_entry(s: Seq<u8>, pos: int) -> EntryView {
    EntryView {
        value: s.subrange(
            val_start(s, record_body(s, pos)),
            val_start(s, record_body(s, pos)) + val_len(s, record_body(s, pos)),
        ),
        expires_at: record_expiry(s, pos),
    }
}

/// The index just past the record at `pos`.
pub open spec fn record_end(s: Seq<u8>, pos: int) -> int {
    val_start(s, record_body(s, pos)) + val_len(s, record_body(s, pos))
}

/// Decodes the record at `pos`: its key, its entry, and the bytes consumed.
fn serialize_kv_at(buf: &[u8], pos: usize) -> (r: Option<(Vec<u8>, StoredEntry, usize)>)
    requires
        pos <= buf@.len(),
    ensures
        match r {
            Some(kec) => {
                &&& record_ok(buf@, pos as int)
                &&& kec.0@ == record_key(buf@, pos as int)
                &&& kec.1@ == record_entry(buf@, pos as int)
                &&& pos + kec.2 == record_end(buf@, pos as int)
                &&& pos + kec.2 <= buf@.len()
            },
            None => !record_ok(buf@, pos as int),
        },
{
    if pos == buf.len() {
        return None;
    }
    let (expires_at, body) = if buf[pos] == EXPIRY_MARKER {
        if buf.len() - pos < 10 {
            return None;
        }
        let t = read_le64_at(buf, pos + 1);
        (Some(t), pos + 10)
    } else {
        (None, pos + 1)
    };
    let (klen, koff) = match length_encode_at(buf, body) {
        Some(x) => x,
        None => {
            return None;
        },
    };
    let kstart = body + koff;
    if klen > buf.len() - kstart {
        return None;
    }
    let key = vstd::slice::slice_to_vec(vstd::slice::slice_subrange(buf, kstart, kstart + klen));
    let vfield = kstart + klen;
    let (vlen, voff) = match length_encode_at(buf, vfield) {
        Some(x) => x,
        None => {
            return None;
        },
    };
    let vstart = vfield + voff;
    if vlen > buf.len() - vstart {
        return None;
    }
    let value = vstd::slice::slice_to_vec(
        vstd::slice::slice_subrange(buf, vstart, vstart + vlen),
    );
    Some((key, StoredEntry { value, expires_at }, vstart + vlen - pos))
}

/// Decodes the record at the start of `buf`; see `serialize_kv_at`.
pub fn serialize_kv(buf: &[u8]) -> (r: Option<(Vec<u8>, StoredEntry, usize)>)
    ensures
        match r {
            Some(kec) => {
                &&& record_ok(buf@, 0)
                &&& kec.0@ == record_key(buf@, 0)
                &&& kec.1@ == record_entry(buf@, 0)
                &&& kec.2 == record_end(buf@, 0)
                &&& kec.2 <= buf@.len()
            },
            None => !record_ok(buf@, 0),
        },
{
    serialize_kv_at(buf, 0)
}

/// The index of the first hash-table marker at or after `i` (`s.len()` if
/// none).
pub open spec fn fb_pos(s: Seq<u8>, i: int) -> int
    decreases s.len() - i,
{
    if i < 0 || i >= s.len() {
        i
    } else if s[i] == HASHTABLE_MARKER {
        i
    } else {
        fb_pos(s, i + 1)
    }
}

/// There are `n` consecutive well-formed records starting at `pos`.
pub open spec fn records_ok(s: Seq<u8>, pos: int, n: nat) -> bool
    decreases n,
{
    n == 0 || (record_ok(s, pos) && records_ok(s, record_end(s, pos), (n - 1) as nat))
}

/// The index just past `n` consecutive records starting at `pos`.
pub open spec fn records_end(s: Seq<u8>, pos: int, n: nat) -> int
    decreases n,
{
    if n == 0 {
        pos
    } else {
        records_end(s, record_end(s, pos), (n - 1) as nat)
    }
}

/// The mapping `n` records starting at `pos` load at time `now`: records
/// are inserted in order, except that a record already expired at `now` is
/// parsed but never inserted.
pub open spec fn records_map(s: Seq<u8>, pos: int, n: nat, now: u64) -> Map<Seq<u8>, EntryView>
    decreases n,
{
    if n == 0 {
        Map::empty()
    } else {
        let m = records_map(s, pos, (n - 1) as nat, now);
        let p = records_end(s, pos, (n - 1) as nat);
        if live(record_entry(s, p), now) {
            m.insert(record_key(s, p), record_entry(s, p))
        } else {
            m
        }
    }
}

/// A well-formed record right after a well-formed run extends the run.
proof fn lemma_records_append(s: Seq<u8>, pos: int, n: nat)
    requires
        records_ok(s, pos, n),
        record_ok(s, records_end(s, pos, n)),
    ensures
        records_ok(s, pos, n + 1),
        records_end(s, pos, n + 1) == record_end(s, records_end(s, pos, n)),
    decreases n,
{
    if n == 0 {
        let e1 = record_end(s, pos);
        assert(records_ok(s, e1, 0));
        assert(records_end(s, e1, 0) == e1);
        assert(records_ok(s, pos, 1));
    } else {
        lemma_records_append(s, record_end(s, pos), (n - 1) as nat);
        assert(((n - 1) as nat) + 1 == n);
        assert(records_ok(s, record_end(s, pos), n));
        assert(records_ok(s, pos, n + 1));
    }
}

/// Every prefix of a well-formed run is well-formed, and the record after
/// the prefix is too.
proof fn lemma_records_prefix(s: Seq<u8>, pos: int, n: nat, i: nat)
    requires
        i < n,
        records_ok(s, pos, n),
    ensures
        records_ok(s, pos, i),
        record_ok(s, records_end(s, pos, i)),
    decreases i,
{
    if i > 0 {
        lemma_records_prefix(s, record_end(s, pos), (n - 1) as nat, (i - 1) as nat);
    }
}

/// Where the hash-table size field starts.
pub open spec fn snap_count_pos(s: Seq<u8>) -> int {
    fb_pos(s, 0) + 1
}

/// Where the expire-table size field starts.
pub open spec fn snap_expire_pos(s: Seq<u8>) -> int {
    snap_count_pos(s) + varint_len(s, snap_count_pos(s))
}

/// Where the records start.
pub open spec fn snap_records_pos(s: Seq<u8>) -> int {
    snap_expire_pos(s) + varint_len(s, snap_expire_pos(s))
}

/// The number of records the snapshot declares.
pub open spec fn snap_count(s: Seq<u8>) -> nat {
    varint_val(s, snap_count_pos(s))
}

/// A well-formed snapshot: the hash-table marker is present, the two size
/// fields follow it, and the declared number of records is well-formed.
pub open spec fn snapshot_ok(s: Seq<u8>) -> bool {
    &&& fb_pos(s, 0) < s.len()
    &&& varint_ok(s, snap_count_pos(s))
    &&& varint_ok(s, snap_expire_pos(s))
    &&& records_ok(s, snap_records_pos(s), snap_count(s))
}

/// The mapping a well-formed snapshot loads at time `now`.
pub open spec fn snapshot_map(s: Seq<u8>, now: u64) -> Map<Seq<u8>, EntryView> {
    records_map(s, snap_records_pos(s), snap_count(s), now)
}

impl Database {
    /// Restores a keyspace from a snapshot image at time `now_ms`: a
    /// well-formed snapshot yields its records, already-expired ones
    /// discarded; a malformed or truncated one aborts the load entirely
    /// and yields an empty keyspace.
    pub fn from_snapshot(config: Config, buf: &[u8], now_ms: u64) -> (db: Database)
        ensures
            db.wf(),
            db@.config == config@,
            db@.kv == if snapshot_ok(buf@) {
                snapshot_map(buf@, now_ms)
            } else {
                Map::<Seq<u8>, EntryView>::empty()
            },
    {
        let ghost s = buf@;
        let blen = buf.len();
        let mut db = Database::new(config);
        // find the hash-table marker
        let mut f: usize = 0;
        loop
            invariant
                s == buf@,
                s.len() <= usize::MAX,
                f <= s.len(),
                fb_pos(s, 0) == fb_pos(s, f as int),
                db.wf(),
                db@.kv == Map::<Seq<u8>, EntryView>::empty(),
                db@.config == config@,
            ensures
                s == buf@,
                s.len() <= usize::MAX,
                f < s.len(),
                s[f as int] == HASHTABLE_MARKER,
                fb_pos(s, 0) == f,
                db.wf(),
                db@.kv == Map::<Seq<u8>, EntryView>::empty(),
                db@.config == config@,
            decreases s.len() - f,
        {
            if f == buf.len() {
                // no marker: the snapshot is malformed, keep the empty store
                return db;
            }
            if buf[f] == HASHTABLE_MARKER {
                break;
            }
            f = f + 1;
        }
        // the two size fields
        let (count, c1) = match length_encode_at(buf, f + 1) {
            Some(x) => x,
            None => {
                return db;
            },
        };
        let p1 = f + 1 + c1;
        let (_expire_count, c2) = match length_encode_at(buf, p1) {
            Some(x) => x,
            None => {
                return db;
            },
        };
        let ghost p0 = snap_records_pos(s);
        let mut p = p1 + c2;
        let mut idx: usize = 0;
        while idx < count
            invariant
                s == buf@,
                s.len() <= usize::MAX,
                fb_pos(s, 0) == f < s.len(),
                varint_ok(s, snap_count_pos(s)),
                varint_ok(s, snap_expire_pos(s)),
                count == snap_count(s),
                p0 == snap_records_pos(s),
                idx <= count,
                records_ok(s, p0, idx as nat),
                p == records_end(s, p0, idx as nat),
                p <= s.len(),
                db.wf(),
                db@.kv == records_map(s, p0, idx as nat, now_ms),
                db@.config == config@,
            decreases count - idx,
        {
            match serialize_kv_at(buf, p) {
                Some((key, entry, consumed)) => {
                    proof {
                        lemma_records_append(s, p0, idx as nat);
                    }
                    let is_live = match &entry.expires_at {
                        Some(t) => now_ms < *t,
                        None => true,
                    };
                    if is_live {
                        db.insert_entry(key, entry);
                    }
                    p = p + consumed;
                    idx = idx + 1;
                },
                None => {
                    // malformed record: abort the load, fall back to empty
                    proof {
                        if snapshot_ok(s) {
                            lemma_records_prefix(s, p0, snap_count(s), idx as nat);
                        }
                    }
                    db.clear();
                    return db;
                },
            }
        }
        db
    }
}

} // verus!
