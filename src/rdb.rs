//! The snapshot file: a magic header, auxiliary fields, and database
//! sections whose entries may carry expiry instants.
use vstd::prelude::*;
use byteorder::ByteOrder;
use crate::decimal::{int_text, push_int};
use crate::resp::{Value, Resp, copy_bytes};

verus! {

/// The number that bytes denote, least significant first.
pub open spec fn le_bytes(b: Seq<u8>) -> nat
    decreases b.len(),
{
    if b.len() == 0 {
        0
    } else {
        b[0] as nat + 256 * le_bytes(b.drop_first())
    }
}

/// Two's complement reading of a 64-bit pattern.
pub open spec fn as_signed(n: nat) -> int {
    if n < 0x8000_0000_0000_0000 {
        n as int
    } else {
        n - 0x1_0000_0000_0000_0000
    }
}

/// Relies on `byteorder::LittleEndian::read_u16`: the first two bytes, least
/// significant first; it panics on fewer than two.
#[verifier::external_body]
fn read_u16_le(b: &[u8]) -> (r: u16)
    requires
        b.len() >= 2,
    ensures
        r as nat == le_bytes(b@.subrange(0, 2)),
{
    byteorder::LittleEndian::read_u16(b)
}

/// Relies on `byteorder::LittleEndian::read_u32`: the first four bytes, least
/// significant first; it panics on fewer than four.
#[verifier::external_body]
fn read_u32_le(b: &[u8]) -> (r: u32)
    requires
        b.len() >= 4,
    ensures
        r as nat == le_bytes(b@.subrange(0, 4)),
{
    byteorder::LittleEndian::read_u32(b)
}

/// Relies on `byteorder::LittleEndian::read_u64`: the first eight bytes, least
/// significant first; it panics on fewer than eight.
#[verifier::external_body]
fn read_u64_le(b: &[u8]) -> (r: u64)
    requires
        b.len() >= 8,
    ensures
        r as nat == le_bytes(b@.subrange(0, 8)),
{
    byteorder::LittleEndian::read_u64(b)
}

/// Relies on `byteorder::LittleEndian::read_i64`: the first eight bytes, least
/// significant first, as two's complement; it panics on fewer than eight.
#[verifier::external_body]
fn read_i64_le(b: &[u8]) -> (r: i64)
    requires
        b.len() >= 8,
    ensures
        r as int == as_signed(le_bytes(b@.subrange(0, 8))),
{
    byteorder::LittleEndian::read_i64(b)
}

/// How many bytes follow an inline-integer marker.
pub open spec fn int_width(b: u8) -> int {
    if b == 0xC0 {
        1
    } else if b == 0xC1 {
        2
    } else if b == 0xC2 {
        4
    } else {
        8
    }
}

/// The string or inline integer at `pos`, and the position after it.
pub open spec fn rdb_value(s: Seq<u8>, pos: int) -> Option<(Resp, int)> {
    if pos < 0 || pos >= s.len() {
        None
    } else {
        let b = s[pos];
        if b <= 0xBF {
            if pos + 1 + b <= s.len() {
                Some((Resp::Bulk(Some(s.subrange(pos + 1, pos + 1 + b))), pos + 1 + b))
            } else {
                None
            }
        } else if b <= 0xC3 {
            let w = int_width(b);
            if pos + 1 + w <= s.len() {
                let n = le_bytes(s.subrange(pos + 1, pos + 1 + w));
                Some((Resp::Int(if b == 0xC3 { as_signed(n) } else { n as int }), pos + 1 + w))
            } else {
                None
            }
        } else {
            None
        }
    }
}

/// A key at `pos`: a string, or an inline integer taken as its decimal text.
pub open spec fn rdb_key(s: Seq<u8>, pos: int) -> Option<(Seq<u8>, int)> {
    match rdb_value(s, pos) {
        Some((Resp::Bulk(Some(k)), e)) => Some((k, e)),
        Some((Resp::Int(i), e)) => Some((int_text(i), e)),
        _ => None,
    }
}

/// A key, its value and its expiry instant in milliseconds.
pub type Loaded = (Seq<u8>, Resp, Option<u64>);

/// A key followed by its value, from `pos`.
pub open spec fn rdb_pair(s: Seq<u8>, pos: int) -> Option<(Seq<u8>, Resp, int)> {
    match rdb_key(s, pos) {
        None => None,
        Some((k, e)) => match rdb_value(s, e) {
            None => None,
            Some((v, e2)) => Some((k, v, e2)),
        },
    }
}

/// One entry of a database section at `pos`, read at millisecond `now`:
/// the entry, or nothing when it has expired or has an unknown type; and the
/// position after it.
pub open spec fn db_entry(s: Seq<u8>, pos: int, now: u64) -> Option<(Option<Loaded>, int)> {
    if pos < 0 || pos >= s.len() {
        None
    } else {
        let t = s[pos];
        if t == 0xFC || t == 0xFD {
            let w: int = if t == 0xFC { 8 } else { 4 };
            if pos + 1 + w >= s.len() {
                None
            } else {
                let raw = le_bytes(s.subrange(pos + 1, pos + 1 + w));
                let at: int = if t == 0xFC { raw as int } else { (raw * 1000) as int };
                let p = pos + 1 + w;
                if s[p] != 0 {
                    Some((None, p + 1))
                } else {
                    match rdb_pair(s, p + 1) {
                        None => None,
                        Some((k, v, e)) => if now < at && at <= u64::MAX {
                            Some((Some((k, v, Some(at as u64))), e))
                        } else {
                            Some((None, e))
                        },
                    }
                }
            }
        } else if t == 0 {
            match rdb_pair(s, pos + 1) {
                None => None,
                Some((k, v, e)) => Some((Some((k, v, None)), e)),
            }
        } else {
            Some((None, pos + 1))
        }
    }
}

/// What a snapshot holds: its entries, in file order, its auxiliary fields,
/// and whether reading reached the end marker (rather than stopping at bytes
/// that do not read, or at the end of the file).
pub struct Snapshot {
    pub entries: Seq<Loaded>,
    pub aux: Seq<(Seq<u8>, Resp)>,
    pub complete: bool,
}

pub open spec fn with_entry(x: Snapshot, e: Option<Loaded>) -> Snapshot {
    match e {
        Some(l) => Snapshot { entries: x.entries.push(l), ..x },
        None => x,
    }
}

/// Reads on from `pos` with `acc` read so far: sections until the end marker,
/// the end of the bytes, or the first thing that does not read; `left` is the
/// number of entries still due in the current database section.
pub open spec fn read_from(s: Seq<u8>, pos: int, left: nat, now: u64, acc: Snapshot) -> Snapshot
    decreases s.len() - pos, left,
{
    if pos < 0 || pos >= s.len() {
        acc
    } else if left > 0 {
        match db_entry(s, pos, now) {
            None => acc,
            Some((e, next)) => if next <= pos {
                acc
            } else {
                read_from(s, next, (left - 1) as nat, now, with_entry(acc, e))
            },
        }
    } else {
        let t = s[pos];
        if t == 0xFF {
            Snapshot { complete: true, ..acc }
        } else if t == 0xFA {
            match rdb_key(s, pos + 1) {
                None => acc,
                Some((k, e)) => match rdb_value(s, e) {
                    None => acc,
                    Some((v, e2)) => if e2 <= pos {
                        acc
                    } else {
                        read_from(s, e2, 0, now, Snapshot { aux: acc.aux.push((k, v)), ..acc })
                    },
                },
            }
        } else if t == 0xFE {
            if pos + 2 < s.len() && s[pos + 2] == 0xFB {
                if pos + 4 < s.len() {
                    read_from(s, pos + 5, s[pos + 3] as nat, now, acc)
                } else {
                    acc
                }
            } else if pos + 2 <= s.len() {
                read_from(s, pos + 2, 0, now, acc)
            } else {
                acc
            }
        } else {
            match rdb_pair(s, pos + 1) {
                None => acc,
                Some((k, v, e)) => if e <= pos {
                    acc
                } else {
                    read_from(s, e, 0, now, with_entry(acc, Some((k, v, None))))
                },
            }
        }
    }
}

/// What a snapshot file holds, read at millisecond `now`: nothing unless it
/// opens with `REDIS` and four version bytes.
pub open spec fn snapshot_of(s: Seq<u8>, now: u64) -> Snapshot {
    let empty = Snapshot { entries: Seq::empty(), aux: Seq::empty(), complete: false };
    if s.len() >= 9 && s.subrange(0, 5) == crate::codec::snapshot_magic() {
        read_from(s, 9, 0, now, empty)
    } else {
        empty
    }
}

proof fn lemma_le_one(b: Seq<u8>)
    requires
        b.len() == 1,
    ensures
        le_bytes(b) == b[0] as nat,
{
    assert(b.drop_first().len() == 0);
    assert(le_bytes(b.drop_first()) == 0);
}

/// Reads the string or inline integer at `pos`.
fn read_value_at(s: &[u8], pos: usize) -> (r: Option<(Value, usize)>)
    ensures
        match rdb_value(s@, pos as int) {
            Some((v, e)) => r matches Some((x, e2)) && x@ == v && e2 == e,
            None => r is None,
        },
{
    if pos >= s.len() {
        return None;
    }
    let b = s[pos];
    if b <= 0xBF {
        let n = b as usize;
        if n > s.len() - pos - 1 {
            return None;
        }
        return Some((Value::BulkString(Some(copy_bytes(&s[pos + 1..pos + 1 + n]))), pos + 1 + n));
    }
    if b > 0xC3 {
        return None;
    }
    let w: usize = if b == 0xC0 { 1 } else if b == 0xC1 { 2 } else if b == 0xC2 { 4 } else { 8 };
    if w > s.len() - pos - 1 {
        return None;
    }
    let field = &s[pos + 1..pos + 1 + w];
    proof {
        assert(field@.subrange(0, w as int) =~= s@.subrange(pos + 1, pos + 1 + w));
    }
    let i: i64 = if b == 0xC0 {
        proof {
            lemma_le_one(field@.subrange(0, 1));
        }
        field[0] as i64
    } else if b == 0xC1 {
        read_u16_le(field) as i64
    } else if b == 0xC2 {
        read_u32_le(field) as i64
    } else {
        read_i64_le(field)
    };
    Some((Value::Integer(i), pos + 1 + w))
}

/// Reads the key at `pos`.
fn read_key_at(s: &[u8], pos: usize) -> (r: Option<(Vec<u8>, usize)>)
    ensures
        match rdb_key(s@, pos as int) {
            Some((k, e)) => r matches Some((x, e2)) && x@ == k && e2 == e,
            None => r is None,
        },
{
    match read_value_at(s, pos) {
        Some((Value::BulkString(Some(k)), e)) => Some((k, e)),
        Some((Value::Integer(i), e)) => {
            let mut t: Vec<u8> = Vec::new();
            push_int(&mut t, i);
            proof {
                assert(t@ =~= int_text(i as int));
            }
            Some((t, e))
        },
        _ => None,
    }
}

fn read_pair_at(s: &[u8], pos: usize) -> (r: Option<(Vec<u8>, Value, usize)>)
    ensures
        match rdb_pair(s@, pos as int) {
            Some((k, v, e)) => r matches Some((x, y, e2)) && x@ == k && y@ == v && e2 == e,
            None => r is None,
        },
{
    match read_key_at(s, pos) {
        None => None,
        Some((k, e)) => match read_value_at(s, e) {
            None => None,
            Some((v, e2)) => Some((k, v, e2)),
        },
    }
}

/// One loaded entry: key, value and expiry.
pub type RdbEntry = (Vec<u8>, Value, Option<u64>);

pub open spec fn entry_model(e: RdbEntry) -> Loaded {
    (e.0@, e.1@, e.2)
}

pub open spec fn opt_entry_model(e: Option<RdbEntry>) -> Option<Loaded> {
    match e {
        Some(x) => Some(entry_model(x)),
        None => None,
    }
}

fn read_db_entry(s: &[u8], pos: usize, now: u64) -> (r: Option<(Option<RdbEntry>, usize)>)
    ensures
        match db_entry(s@, pos as int, now) {
            Some((e, n)) => r matches Some((x, n2)) && opt_entry_model(x) == e && n2 == n,
            None => r is None,
        },
{
    if pos >= s.len() {
        return None;
    }
    let t = s[pos];
    if t == 0xFC || t == 0xFD {
        let w: usize = if t == 0xFC { 8 } else { 4 };
        if w >= s.len() - pos - 1 {
            return None;
        }
        let field = &s[pos + 1..pos + 1 + w];
        proof {
            assert(field@.subrange(0, w as int) =~= s@.subrange(pos + 1, pos + 1 + w));
        }
        let at: u64 = if t == 0xFC {
            read_u64_le(field)
        } else {
            let secs = read_u32_le(field) as u64;
            secs * 1000
        };
        let p = pos + 1 + w;
        if s[p] != 0 {
            return Some((None, p + 1));
        }
        match read_pair_at(s, p + 1) {
            None => None,
            Some((k, v, e)) => {
                if now < at {
                    Some((Some((k, v, Some(at))), e))
                } else {
                    Some((None, e))
                }
            },
        }
    } else if t == 0 {
        match read_pair_at(s, pos + 1) {
            None => None,
            Some((k, v, e)) => Some((Some((k, v, None)), e)),
        }
    } else {
        Some((None, pos + 1))
    }
}

/// The entries and auxiliary fields read from a snapshot file.
pub struct SnapshotContents {
    pub entries: Vec<RdbEntry>,
    pub aux: Vec<(Vec<u8>, Value)>,
    /// Reading reached the end marker.
    pub complete: bool,
}

impl View for SnapshotContents {
    type V = Snapshot;

    open spec fn view(&self) -> Snapshot {
        Snapshot {
            entries: self.entries@.map_values(|e: RdbEntry| entry_model(e)),
            aux: self.aux@.map_values(|p: (Vec<u8>, Value)| (p.0@, p.1@)),
            complete: self.complete,
        }
    }
}

/// Reads a snapshot file at wall-clock millisecond `now`, up to its end
/// marker or to the first part that does not read, keeping what it read
/// before; entries already expired are left out. `complete` tells whether
/// the end marker was reached.
pub fn parse_rdb(s: &[u8], now: u64) -> (r: SnapshotContents)
    ensures
        r@ == snapshot_of(s@, now),
{
    let mut acc = SnapshotContents { entries: Vec::new(), aux: Vec::new(), complete: false };
    proof {
        assert(acc@.entries =~= Seq::<Loaded>::empty());
        assert(acc@.aux =~= Seq::<(Seq<u8>, Resp)>::empty());
    }
    if s.len() < 9 || !(s[0] == 82u8 && s[1] == 69u8 && s[2] == 68u8 && s[3] == 73u8 && s[4] == 83u8) {
        proof {
            if s.len() >= 9 && s@.subrange(0, 5) == crate::codec::snapshot_magic() {
                assert(s@.subrange(0, 5)[0] == s@[0]);
                assert(s@.subrange(0, 5)[1] == s@[1]);
                assert(s@.subrange(0, 5)[2] == s@[2]);
                assert(s@.subrange(0, 5)[3] == s@[3]);
                assert(s@.subrange(0, 5)[4] == s@[4]);
            }
        }
        return acc;
    }
    proof {
        assert(s@.subrange(0, 5) =~= crate::codec::snapshot_magic());
    }
    let ghost goal = snapshot_of(s@, now);
    let mut pos: usize = 9;
    let mut left: u64 = 0;
    while pos < s.len()
        invariant
            pos <= s.len(),
            goal == snapshot_of(s@, now),
            goal == read_from(s@, pos as int, left as nat, now, acc@),
        decreases s.len() - pos, left,
    {
        if left > 0 {
            match read_db_entry(s, pos, now) {
                None => {
                    return acc;
                },
                Some((e, next)) => {
                    if next <= pos {
                        return acc;
                    }
                    proof {
                        lemma_db_entry_bound(s@, pos as int, now);
                    }
                    let ghost a0 = acc@;
                    match e {
                        Some(x) => {
                            acc.entries.push(x);
                            proof {
                                assert(acc@.entries =~= a0.entries.push(entry_model(x)));
                                assert(acc@.aux =~= a0.aux);
                            }
                        },
                        None => {},
                    }
                    pos = next;
                    left = left - 1;
                },
            }
        } else {
            let t = s[pos];
            if t == 0xFF {
                acc.complete = true;
                return acc;
            } else if t == 0xFA {
                match read_key_at(s, pos + 1) {
                    None => {
                        return acc;
                    },
                    Some((k, e)) => match read_value_at(s, e) {
                        None => {
                            return acc;
                        },
                        Some((v, e2)) => {
                            if e2 <= pos {
                                return acc;
                            }
                            proof {
                                lemma_value_bound(s@, e as int);
                            }
                            let ghost a0 = acc@;
                            acc.aux.push((k, v));
                            proof {
                                assert(acc@.aux =~= a0.aux.push((k@, v@)));
                                assert(acc@.entries =~= a0.entries);
                            }
                            pos = e2;
                        },
                    },
                }
            } else if t == 0xFE {
                if s.len() - pos > 2 && s[pos + 2] == 0xFB {
                    if s.len() - pos > 4 {
                        left = s[pos + 3] as u64;
                        pos = pos + 5;
                    } else {
                        return acc;
                    }
                } else if s.len() - pos >= 2 {
                    pos = pos + 2;
                } else {
                    return acc;
                }
            } else {
                match read_pair_at(s, pos + 1) {
                    None => {
                        return acc;
                    },
                    Some((k, v, e)) => {
                        if e <= pos {
                            return acc;
                        }
                        proof {
                            lemma_pair_bound(s@, pos + 1);
                        }
                        let ghost a0 = acc@;
                        acc.entries.push((k, v, None));
                        proof {
                            assert(acc@.entries =~= a0.entries.push((k@, v@, None)));
                            assert(acc@.aux =~= a0.aux);
                        }
                        pos = e;
                    },
                }
            }
        }
    }
    acc
}

proof fn lemma_value_bound(s: Seq<u8>, pos: int)
    ensures
        rdb_value(s, pos) matches Some((v, e)) ==> e <= s.len(),
        rdb_key(s, pos) matches Some((k, e)) ==> e <= s.len(),
{
}

proof fn lemma_pair_bound(s: Seq<u8>, pos: int)
    ensures
        rdb_pair(s, pos) matches Some((k, v, e)) ==> e <= s.len(),
{
    lemma_value_bound(s, pos);
    if let Some((k, e)) = rdb_key(s, pos) {
        lemma_value_bound(s, e);
    }
}

proof fn lemma_db_entry_bound(s: Seq<u8>, pos: int, now: u64)
    ensures
        db_entry(s, pos, now) matches Some((x, e)) ==> e <= s.len(),
{
    lemma_pair_bound(s, pos + 1);
    lemma_pair_bound(s, pos + 10);
    lemma_pair_bound(s, pos + 6);
}

} // verus!
