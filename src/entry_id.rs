//! Stream entry IDs and their textual forms.
use vstd::prelude::*;
use crate::decimal::{is_digit, digits_value, nat_text, push_nat};

verus! {

/// A stream entry ID: milliseconds and a sequence number, ordered
/// lexicographically.
#[derive(Clone, Copy, Debug, PartialEq, Eq, Structural)]
pub struct EntryId {
    pub ms: u64,
    pub seq: u64,
}

/// `a` orders strictly before `b`.
pub open spec fn id_lt(a: EntryId, b: EntryId) -> bool {
    a.ms < b.ms || (a.ms == b.ms && a.seq < b.seq)
}

/// `a` orders before or equal to `b`.
pub open spec fn id_le(a: EntryId, b: EntryId) -> bool {
    id_lt(a, b) || a == b
}

pub fn id_less(a: EntryId, b: EntryId) -> (r: bool)
    ensures
        r == id_lt(a, b),
{
    a.ms < b.ms || (a.ms == b.ms && a.seq < b.seq)
}

pub fn id_less_eq(a: EntryId, b: EntryId) -> (r: bool)
    ensures
        r == id_le(a, b),
{
    a.ms < b.ms || (a.ms == b.ms && a.seq <= b.seq)
}

/// The text `<ms>-<seq>`.
pub open spec fn id_text(id: EntryId) -> Seq<u8> {
    nat_text(id.ms as nat) + seq![45u8] + nat_text(id.seq as nat)
}

/// The text `<ms>-<seq>` of an ID.
pub fn format_id(id: EntryId) -> (r: Vec<u8>)
    ensures
        r@ == id_text(id),
{
    let mut r: Vec<u8> = Vec::new();
    push_nat(&mut r, id.ms);
    r.push(45u8);
    push_nat(&mut r, id.seq);
    proof {
        assert(r@ =~= id_text(id));
    }
    r
}

/// Every byte is a digit.
pub open spec fn all_digits(s: Seq<u8>) -> bool {
    forall|i: int| 0 <= i < s.len() ==> is_digit(#[trigger] s[i])
}

/// The `u64` that a non-empty run of digits denotes, when it fits.
pub open spec fn parse_u64_spec(s: Seq<u8>) -> Option<u64> {
    if s.len() > 0 && all_digits(s) && digits_value(s) <= u64::MAX {
        Some(digits_value(s) as u64)
    } else {
        None
    }
}

/// A digit string denotes at least what any of its prefixes denotes.
pub proof fn lemma_digits_value_grows(s: Seq<u8>, k: int)
    requires
        all_digits(s),
        0 <= k <= s.len(),
    ensures
        digits_value(s.subrange(0, k)) <= digits_value(s),
    decreases s.len() - k,
{
    if k < s.len() {
        let t = s.subrange(0, k + 1);
        assert(t.drop_last() =~= s.subrange(0, k));
        assert(is_digit(s[k]));
        lemma_digits_value_grows(s, k + 1);
    } else {
        assert(s.subrange(0, k) =~= s);
    }
}

/// Parses a non-empty run of decimal digits into a `u64`.
pub fn parse_u64(s: &[u8]) -> (r: Option<u64>)
    ensures
        r == parse_u64_spec(s@),
{
    if s.len() == 0 {
        return None;
    }
    let mut v: u64 = 0;
    let mut k: usize = 0;
    while k < s.len()
        invariant
            k <= s.len(),
            all_digits(s@.subrange(0, k as int)),
            v as nat == digits_value(s@.subrange(0, k as int)),
        decreases s.len() - k,
    {
        let b = s[k];
        if b < 48u8 || b > 57u8 {
            proof {
                assert(!is_digit(s@[k as int]));
            }
            return None;
        }
        let d = (b - 48u8) as u64;
        proof {
            let t = s@.subrange(0, k + 1);
            assert(t.drop_last() =~= s@.subrange(0, k as int));
            assert(all_digits(t)) by {
                assert forall|i: int| 0 <= i < t.len() implies is_digit(#[trigger] t[i]) by {
                    if i < k {
                        assert(t[i] == s@.subrange(0, k as int)[i]);
                    }
                }
            }
        }
        if v > 1844674407370955161u64 || (v == 1844674407370955161u64 && d > 5) {
            proof {
                let t = s@.subrange(0, k + 1);
                assert(digits_value(t) == v * 10 + d);
                assert(digits_value(t) > u64::MAX);
                let rest = s@.subrange(k + 1, s.len() as int);
                if all_digits(s@) {
                    lemma_digits_value_grows(s@, k + 1);
                }
            }
            return None;
        }
        v = v * 10 + d;
        k = k + 1;
    }
    proof {
        assert(s@.subrange(0, k as int) =~= s@);
    }
    Some(v)
}

/// The first position at or after `from` holding byte `b`.
pub open spec fn find_byte(s: Seq<u8>, b: u8, from: int) -> Option<int>
    decreases s.len() - from,
{
    if from < 0 || from >= s.len() {
        None
    } else if s[from] == b {
        Some(from)
    } else {
        find_byte(s, b, from + 1)
    }
}

/// The first position of byte `b` in `s`.
pub fn position_of(s: &[u8], b: u8) -> (r: Option<usize>)
    ensures
        match find_byte(s@, b, 0) {
            Some(i) => r == Some(i as usize),
            None => r is None,
        },
        r matches Some(i) ==> i < s.len() && s@[i as int] == b,
{
    proof {
        lemma_find_byte_range(s@, b, 0);
    }
    let mut k: usize = 0;
    while k < s.len()
        invariant
            k <= s.len(),
            find_byte(s@, b, 0) == find_byte(s@, b, k as int),
        decreases s.len() - k,
    {
        if s[k] == b {
            return Some(k);
        }
        k = k + 1;
    }
    None
}

/// How the ID of a new entry is given.
#[derive(Clone, Copy, Debug, PartialEq, Eq, Structural)]
pub enum IdSpec {
    /// `*`: both parts generated.
    Auto,
    /// `<ms>-*`: the sequence number generated.
    AutoSeq(u64),
    /// `<ms>-<seq>`.
    Explicit(EntryId),
}

/// The ID specification that a text denotes, if any.
pub open spec fn id_spec_of(s: Seq<u8>) -> Option<IdSpec> {
    if s == seq![42u8] {
        Some(IdSpec::Auto)
    } else {
        match find_byte(s, 45u8, 0) {
            None => None,
            Some(i) => {
                let head = s.subrange(0, i);
                let tail = s.subrange(i + 1, s.len() as int);
                match parse_u64_spec(head) {
                    None => None,
                    Some(ms) => if tail == seq![42u8] {
                        Some(IdSpec::AutoSeq(ms))
                    } else {
                        match parse_u64_spec(tail) {
                            None => None,
                            Some(sq) => Some(IdSpec::Explicit(EntryId { ms, seq: sq })),
                        }
                    },
                }
            },
        }
    }
}

pub proof fn lemma_find_byte_range(s: Seq<u8>, b: u8, from: int)
    ensures
        find_byte(s, b, from) matches Some(i) ==> from <= i < s.len() && s[i] == b,
    decreases s.len() - from,
{
    if 0 <= from < s.len() && s[from] != b {
        lemma_find_byte_range(s, b, from + 1);
    }
}

/// Whether `s` is exactly the one byte `b`.
pub fn is_single(s: &[u8], b: u8) -> (r: bool)
    ensures
        r == (s@ == seq![b]),
{
    if s.len() == 1 && s[0] == b {
        assert(s@ =~= seq![b]);
        true
    } else {
        proof {
            if s@ == seq![b] {
                assert(s@[0] == b);
            }
        }
        false
    }
}

/// Parses the ID argument of an append.
pub fn parse_id_spec(s: &[u8]) -> (r: Option<IdSpec>)
    ensures
        r == id_spec_of(s@),
{
    if is_single(s, 42u8) {
        return Some(IdSpec::Auto);
    }
    proof {
        lemma_find_byte_range(s@, 45u8, 0);
    }
    match position_of(s, 45u8) {
        None => None,
        Some(i) => {
            let head = &s[0..i];
            let tail = &s[i + 1..s.len()];
            match parse_u64(head) {
                None => None,
                Some(ms) => {
                    if is_single(tail, 42u8) {
                        Some(IdSpec::AutoSeq(ms))
                    } else {
                        match parse_u64(tail) {
                            None => None,
                            Some(sq) => Some(IdSpec::Explicit(EntryId { ms, seq: sq })),
                        }
                    }
                },
            }
        },
    }
}

/// A range endpoint: `-` is the least ID, `+` the greatest, `<ms>` the first
/// (start) or last (end) ID of that millisecond, `<ms>-<seq>` itself.
pub open spec fn bound_of(s: Seq<u8>, is_end: bool) -> Option<EntryId> {
    if s == seq![45u8] {
        Some(EntryId { ms: 0, seq: 0 })
    } else if s == seq![43u8] {
        Some(EntryId { ms: u64::MAX, seq: u64::MAX })
    } else {
        match find_byte(s, 45u8, 0) {
            None => match parse_u64_spec(s) {
                None => None,
                Some(ms) => Some(EntryId { ms, seq: if is_end { u64::MAX } else { 0 } }),
            },
            Some(i) => match (parse_u64_spec(s.subrange(0, i)), parse_u64_spec(s.subrange(i + 1, s.len() as int))) {
                (Some(ms), Some(sq)) => Some(EntryId { ms, seq: sq }),
                _ => None,
            },
        }
    }
}

/// Parses a range endpoint.
pub fn parse_bound(s: &[u8], is_end: bool) -> (r: Option<EntryId>)
    ensures
        r == bound_of(s@, is_end),
{
    if is_single(s, 45u8) {
        return Some(EntryId { ms: 0, seq: 0 });
    }
    if is_single(s, 43u8) {
        return Some(EntryId { ms: u64::MAX, seq: u64::MAX });
    }
    proof {
        lemma_find_byte_range(s@, 45u8, 0);
    }
    match position_of(s, 45u8) {
        None => match parse_u64(s) {
            None => None,
            Some(ms) => Some(EntryId { ms, seq: if is_end { u64::MAX } else { 0 } }),
        },
        Some(i) => {
            let a = parse_u64(&s[0..i]);
            let b = parse_u64(&s[i + 1..s.len()]);
            match (a, b) {
                (Some(ms), Some(sq)) => Some(EntryId { ms, seq: sq }),
                _ => None,
            }
        },
    }
}

} // verus!
