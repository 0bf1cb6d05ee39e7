//! Decoding RESP frames from bytes, and the round trip with the encoder.
use vstd::prelude::*;
use crate::decimal::{canonical_digits, digits_value, int_of_text, int_text, nat_text, is_digit,
    parse_digits, parse_int_text, lemma_nat_text_canonical, lemma_int_text_reads_back};
use crate::entry_id::{find_byte, lemma_find_byte_range};
use crate::resp::{Value, Resp, ser, ser_items, crlf, models, lemma_models};

verus! {

/// Why bytes do not decode to a frame.
#[derive(Clone, Copy, Debug, PartialEq, Eq, Structural)]
pub enum FrameError {
    /// The bytes end before the frame does.
    Incomplete,
    /// The bytes are not RESP.
    Invalid,
}

/// The ASCII bytes `REDIS` that open a snapshot.
pub open spec fn snapshot_magic() -> Seq<u8> {
    seq![82u8, 69u8, 68u8, 73u8, 83u8]
}

/// A bulk payload that is read as a snapshot: at least 50 bytes, opening
/// with `REDIS`.
pub open spec fn looks_like_snapshot(b: Seq<u8>) -> bool {
    b.len() >= 50 && b.subrange(0, 5) == snapshot_magic()
}

/// The text of the line that starts at `pos`, and where the next one starts.
pub open spec fn parse_line(s: Seq<u8>, pos: int) -> Result<(Seq<u8>, int), FrameError> {
    match find_byte(s, 13u8, pos) {
        None => Err(FrameError::Incomplete),
        Some(e) => if e + 1 >= s.len() {
            Err(FrameError::Incomplete)
        } else if s[e + 1] != 10u8 {
            Err(FrameError::Invalid)
        } else {
            Ok((s.subrange(pos, e), e + 2))
        },
    }
}

pub open spec fn minus_one() -> Seq<u8> {
    seq![45u8, 49u8]
}

/// The frame that starts at `pos` in `s`, with the position after it.
pub open spec fn parse_spec(s: Seq<u8>, pos: int) -> Result<(Resp, int), FrameError>
    decreases s.len() - pos, 0nat,
{
    if pos < 0 || pos >= s.len() {
        Err(FrameError::Incomplete)
    } else {
        let t = s[pos];
        if t == 43u8 || t == 45u8 || t == 58u8 {
            match parse_line(s, pos + 1) {
                Err(x) => Err(x),
                Ok((l, e)) => if t == 43u8 {
                    Ok((Resp::Simple(l), e))
                } else if t == 45u8 {
                    Ok((Resp::Error(l), e))
                } else {
                    match int_of_text(l) {
                        Some(i) => Ok((Resp::Int(i), e)),
                        None => Err(FrameError::Invalid),
                    }
                },
            }
        } else if t == 36u8 {
            match parse_line(s, pos + 1) {
                Err(x) => Err(x),
                Ok((l, e)) => if l == minus_one() {
                    Ok((Resp::Bulk(None), e))
                } else if !canonical_digits(l) || digits_value(l) > u64::MAX {
                    Err(FrameError::Invalid)
                } else {
                    let n = digits_value(l) as int;
                    if e + n > s.len() {
                        Err(FrameError::Incomplete)
                    } else if looks_like_snapshot(s.subrange(e, e + n)) {
                        Ok((Resp::Rdb(s.subrange(e, e + n)), e + n))
                    } else if e + n + 2 > s.len() {
                        Err(FrameError::Incomplete)
                    } else if s[e + n] == 13u8 && s[e + n + 1] == 10u8 {
                        Ok((Resp::Bulk(Some(s.subrange(e, e + n))), e + n + 2))
                    } else {
                        Err(FrameError::Invalid)
                    }
                },
            }
        } else if t == 42u8 {
            match parse_line(s, pos + 1) {
                Err(x) => Err(x),
                Ok((l, e)) => if l == minus_one() {
                    Ok((Resp::Bulk(None), e))
                } else if !canonical_digits(l) || digits_value(l) > u64::MAX || e <= pos || e > s.len() {
                    Err(FrameError::Invalid)
                } else {
                    match parse_items(s, e, digits_value(l)) {
                        Err(x) => Err(x),
                        Ok((items, end)) => Ok((Resp::Arr(items), end)),
                    }
                },
            }
        } else {
            Err(FrameError::Invalid)
        }
    }
}

/// `n` frames back to back from `pos`.
pub open spec fn parse_items(s: Seq<u8>, pos: int, n: nat) -> Result<(Seq<Resp>, int), FrameError>
    decreases s.len() - pos, n + 1,
{
    if n == 0 {
        Ok((Seq::empty(), pos))
    } else {
        match parse_spec(s, pos) {
            Err(x) => Err(x),
            Ok((v, e)) => if e <= pos || e > s.len() {
                Err(FrameError::Invalid)
            } else {
                match parse_items(s, e, (n - 1) as nat) {
                    Err(x) => Err(x),
                    Ok((rest, end)) => Ok((seq![v] + rest, end)),
                }
            },
        }
    }
}

/// A value that the decoder reads back: no CR in simple strings and errors,
/// no bulk string that reads as a snapshot, snapshots that do, integers in
/// the range of `i64`.
pub open spec fn wire_ok(v: Resp) -> bool
    decreases v,
{
    match v {
        Resp::Simple(t) => !t.contains(13u8),
        Resp::Error(t) => !t.contains(13u8),
        Resp::Bulk(None) => true,
        Resp::Bulk(Some(b)) => !looks_like_snapshot(b) && b.len() <= u64::MAX,
        Resp::Int(i) => i64::MIN <= i <= i64::MAX,
        Resp::Arr(items) => items.len() <= u64::MAX && forall|i: int| 0 <= i < items.len() ==> wire_ok(#[trigger] items[i]),
        Resp::Rdb(b) => looks_like_snapshot(b) && b.len() <= u64::MAX,
    }
}

/// Prepends `acc` to the items of a successful parse.
pub open spec fn prepend(acc: Seq<Resp>, r: Result<(Seq<Resp>, int), FrameError>) -> Result<(Seq<Resp>, int), FrameError> {
    match r {
        Ok((rest, end)) => Ok((acc + rest, end)),
        Err(x) => Err(x),
    }
}

/// Finds the line that starts at `pos`: where its text ends and where the
/// next line starts.
fn read_until_crlf(buf: &[u8], pos: usize) -> (r: Result<(usize, usize), FrameError>)
    requires
        pos <= buf.len(),
    ensures
        match parse_line(buf@, pos as int) {
            Ok((l, e)) => r matches Ok((te, ne)) && ne == e && te + 2 == e && pos <= te && ne <= buf.len()
                && l == buf@.subrange(pos as int, te as int),
            Err(x) => r == Err::<(usize, usize), FrameError>(x),
        },
{
    let mut k: usize = pos;
    while k < buf.len()
        invariant
            pos <= k <= buf.len(),
            find_byte(buf@, 13u8, pos as int) == find_byte(buf@, 13u8, k as int),
        decreases buf.len() - k,
    {
        if buf[k] == 13u8 {
            if k + 1 >= buf.len() {
                return Err(FrameError::Incomplete);
            }
            if buf[k + 1] != 10u8 {
                return Err(FrameError::Invalid);
            }
            return Ok((k, k + 2));
        }
        k = k + 1;
    }
    Err(FrameError::Incomplete)
}

/// Whether the `n` bytes at `e` read as a snapshot.
fn snapshot_at(buf: &[u8], e: usize, n: usize) -> (r: bool)
    requires
        e + n <= buf.len(),
    ensures
        r == looks_like_snapshot(buf@.subrange(e as int, e + n)),
{
    if n < 50 {
        return false;
    }
    let r = buf[e] == 82u8 && buf[e + 1] == 69u8 && buf[e + 2] == 68u8 && buf[e + 3] == 73u8 && buf[e + 4] == 83u8;
    proof {
        let p = buf@.subrange(e as int, e + n);
        if r {
            assert(p.subrange(0, 5) =~= snapshot_magic());
        } else {
            if p.subrange(0, 5) == snapshot_magic() {
                assert(p.subrange(0, 5)[0] == 82u8);
                assert(p.subrange(0, 5)[1] == 69u8);
                assert(p.subrange(0, 5)[2] == 68u8);
                assert(p.subrange(0, 5)[3] == 73u8);
                assert(p.subrange(0, 5)[4] == 83u8);
            }
        }
    }
    r
}

fn is_minus_one(l: &[u8]) -> (r: bool)
    ensures
        r == (l@ == minus_one()),
{
    if l.len() == 2 && l[0] == 45u8 && l[1] == 49u8 {
        assert(l@ =~= minus_one());
        true
    } else {
        proof {
            if l@ == minus_one() {
                assert(l@[0] == 45u8 && l@[1] == 49u8);
            }
        }
        false
    }
}

/// Decodes the frame that starts at `pos`.
fn parse_at(buf: &[u8], pos: usize) -> (r: Result<(Value, usize), FrameError>)
    requires
        pos <= buf.len(),
    ensures
        match parse_spec(buf@, pos as int) {
            Ok((v, e)) => r matches Ok((x, e2)) && x@ == v && e2 == e,
            Err(x) => r == Err::<(Value, usize), FrameError>(x),
        },
    decreases buf.len() - pos, 0nat,
{
    if pos >= buf.len() {
        return Err(FrameError::Incomplete);
    }
    let t = buf[pos];
    if t == 43u8 || t == 45u8 || t == 58u8 {
        let (te, e) = match read_until_crlf(buf, pos + 1) {
            Err(x) => {
                return Err(x);
            },
            Ok(p) => p,
        };
        let line = &buf[pos + 1..te];
        if t == 43u8 {
            return Ok((Value::SimpleString(crate::resp::copy_bytes(line)), e));
        } else if t == 45u8 {
            return Ok((Value::Error(crate::resp::copy_bytes(line)), e));
        } else {
            return match parse_int_text(line) {
                Some(i) => Ok((Value::Integer(i), e)),
                None => Err(FrameError::Invalid),
            };
        }
    } else if t == 36u8 {
        let (te, e) = match read_until_crlf(buf, pos + 1) {
            Err(x) => {
                return Err(x);
            },
            Ok(p) => p,
        };
        let line = &buf[pos + 1..te];
        if is_minus_one(line) {
            return Ok((Value::BulkString(None), e));
        }
        let n = match parse_digits(line) {
            None => {
                return Err(FrameError::Invalid);
            },
            Some(n) => n,
        };
        if n > (buf.len() - e) as u64 {
            return Err(FrameError::Incomplete);
        }
        let n = n as usize;
        if snapshot_at(buf, e, n) {
            return Ok((Value::RdbFile(crate::resp::copy_bytes(&buf[e..e + n])), e + n));
        }
        if buf.len() - e - n < 2 {
            return Err(FrameError::Incomplete);
        }
        if buf[e + n] == 13u8 && buf[e + n + 1] == 10u8 {
            return Ok((Value::BulkString(Some(crate::resp::copy_bytes(&buf[e..e + n]))), e + n + 2));
        }
        return Err(FrameError::Invalid);
    } else if t == 42u8 {
        let (te, e) = match read_until_crlf(buf, pos + 1) {
            Err(x) => {
                return Err(x);
            },
            Ok(p) => p,
        };
        let line = &buf[pos + 1..te];
        if is_minus_one(line) {
            return Ok((Value::BulkString(None), e));
        }
        let n = match parse_digits(line) {
            None => {
                return Err(FrameError::Invalid);
            },
            Some(n) => n,
        };
        let ghost s = buf@;
        let mut items: Vec<Value> = Vec::new();
        let mut p: usize = e;
        let mut k: u64 = 0;
        proof {
            assert(models(items@) =~= Seq::<Resp>::empty());
            assert(prepend(Seq::empty(), parse_items(s, e as int, n as nat)) == parse_items(s, e as int, n as nat)) by {
                match parse_items(s, e as int, n as nat) {
                    Ok((rest, end)) => {
                        assert(Seq::<Resp>::empty() + rest =~= rest);
                    },
                    Err(_) => {},
                }
            }
        }
        while k < n
            invariant
                s == buf@,
                pos < e <= p <= buf.len(),
                parse_spec(s, pos as int) == (match parse_items(s, e as int, n as nat) {
                    Err(x) => Err(x),
                    Ok((items, end)) => Ok((Resp::Arr(items), end)),
                }),
                k <= n,
                parse_items(s, e as int, n as nat) == prepend(models(items@), parse_items(s, p as int, (n - k) as nat)),
            decreases n - k,
        {
            let ghost pi = parse_items(s, p as int, (n - k) as nat);
            match parse_at(buf, p) {
                Err(x) => {
                    return Err(x);
                },
                Ok((v, e2)) => {
                    proof {
                        lemma_parse_advances(s, p as int);
                    }
                    let ghost i0 = items@;
                    items.push(v);
                    proof {
                        lemma_models(i0);
                        lemma_models(items@);
                        assert(models(items@) =~= models(i0).push(v@));
                        match parse_items(s, e2 as int, (n - k - 1) as nat) {
                            Ok((rest, end)) => {
                                assert(models(i0) + (seq![v@] + rest) =~= models(items@) + rest);
                            },
                            Err(_) => {},
                        }
                    }
                    p = e2;
                },
            }
            k = k + 1;
        }
        proof {
            assert(models(items@) + Seq::<Resp>::empty() =~= models(items@));
        }
        return Ok((Value::Array(items), p));
    }
    Err(FrameError::Invalid)
}

/// A frame that decodes ends after where it starts, within the bytes.
pub proof fn lemma_parse_advances(s: Seq<u8>, pos: int)
    ensures
        parse_spec(s, pos) matches Ok((v, e)) ==> pos < e <= s.len(),
    decreases s.len() - pos, 0nat,
{
    if 0 <= pos < s.len() {
        lemma_find_byte_range(s, 13u8, pos + 1);
        let t = s[pos];
        if t == 42u8 {
            if let Ok((l, e)) = parse_line(s, pos + 1) {
                if l != minus_one() && canonical_digits(l) && e > pos && e <= s.len() {
                    lemma_items_advance(s, e, digits_value(l));
                }
            }
        }
    }
}

pub proof fn lemma_items_advance(s: Seq<u8>, pos: int, n: nat)
    requires
        pos <= s.len(),
    ensures
        parse_items(s, pos, n) matches Ok((v, e)) ==> pos <= e <= s.len(),
    decreases s.len() - pos, n + 1,
{
    if n > 0 {
        lemma_parse_advances(s, pos);
        if let Ok((v, e)) = parse_spec(s, pos) {
            if e > pos && e <= s.len() {
                lemma_items_advance(s, e, (n - 1) as nat);
            }
        }
    }
}

/// Decodes the frame at the start of `buf`: its value and how many bytes it
/// takes, or why there is none. Whatever follows a frame is left for the
/// next call, so frames can be pipelined.
pub fn parse_message(buf: &[u8]) -> (r: Result<(Value, usize), FrameError>)
    ensures
        match parse_spec(buf@, 0) {
            Ok((v, e)) => r matches Ok((x, n)) && x@ == v && n == e,
            Err(x) => r == Err::<(Value, usize), FrameError>(x),
        },
        forall|v: Resp|
            wire_ok(v) && ser(v).len() <= buf@.len() && #[trigger] buf@.subrange(0, ser(v).len() as int) == ser(v)
                ==> (r matches Ok((x, n)) && x@ == v && n == ser(v).len()),
        r matches Ok((x, n)) ==> 0 < n <= buf.len(),
{
    let r = parse_at(buf, 0);
    proof {
        lemma_parse_advances(buf@, 0);
        assert forall|v: Resp|
            wire_ok(v) && ser(v).len() <= buf@.len() && #[trigger] buf@.subrange(0, ser(v).len() as int) == ser(v)
                implies (r matches Ok((x, n)) && x@ == v && n == ser(v).len()) by {
            lemma_parse_ser(v, buf@, 0);
        }
    }
    r
}

proof fn lemma_sub(s: Seq<u8>, pos: int, w: Seq<u8>, a: int, b: int)
    requires
        0 <= pos,
        pos + w.len() <= s.len(),
        s.subrange(pos, pos + w.len()) == w,
        0 <= a <= b <= w.len(),
    ensures
        s.subrange(pos + a, pos + b) == w.subrange(a, b),
{
    assert forall|i: int| 0 <= i < b - a implies s.subrange(pos + a, pos + b)[i] == w.subrange(a, b)[i] by {
        assert(s[pos + a + i] == s.subrange(pos, pos + w.len())[a + i]);
    }
    assert(s.subrange(pos + a, pos + b) =~= w.subrange(a, b));
}

proof fn lemma_find_first(s: Seq<u8>, from: int, stop: int)
    requires
        0 <= from <= stop < s.len(),
        forall|i: int| from <= i < stop ==> s[i] != 13u8,
        s[stop] == 13u8,
    ensures
        find_byte(s, 13u8, from) == Some(stop),
    decreases stop - from,
{
    if from < stop {
        lemma_find_first(s, from + 1, stop);
    }
}

/// A line whose text has no CR reads back.
proof fn lemma_line(s: Seq<u8>, pos: int, text: Seq<u8>)
    requires
        0 <= pos,
        pos + text.len() + 2 <= s.len(),
        s.subrange(pos, pos + text.len() + 2) == text + crlf(),
        !text.contains(13u8),
    ensures
        parse_line(s, pos) == Ok::<(Seq<u8>, int), FrameError>((text, pos + text.len() + 2)),
{
    let w = s.subrange(pos, pos + text.len() + 2);
    assert forall|i: int| pos <= i < pos + text.len() implies s[i] != 13u8 by {
        assert(s[i] == w[i - pos]);
        assert(w[i - pos] == text[i - pos]);
    }
    assert(s[pos + text.len()] == w[text.len() as int]);
    assert(s[pos + text.len() + 1] == w[text.len() + 1 as int]);
    lemma_find_first(s, pos, pos + text.len());
    assert(s.subrange(pos, pos + text.len()) =~= text) by {
        assert forall|i: int| 0 <= i < text.len() implies s.subrange(pos, pos + text.len())[i] == text[i] by {
            assert(s[pos + i] == w[i]);
        }
    }
}

proof fn lemma_digits_no_cr(n: nat)
    ensures
        !nat_text(n).contains(13u8),
        nat_text(n)[0] != 45u8,
        nat_text(n) != minus_one(),
{
    lemma_nat_text_canonical(n);
    crate::decimal::lemma_nat_text_len(n);
    if nat_text(n).contains(13u8) {
        let i = choose|i: int| 0 <= i < nat_text(n).len() && nat_text(n)[i] == 13u8;
        assert(is_digit(nat_text(n)[i]));
    }
    assert(is_digit(nat_text(n)[0]));
}

/// The encodings of a non-empty sequence, read from the front.
pub proof fn lemma_ser_items_front(items: Seq<Resp>)
    requires
        items.len() > 0,
    ensures
        ser_items(items) == ser(items[0]) + ser_items(items.drop_first()),
    decreases items.len(),
{
    if items.len() == 1 {
        assert(items.subrange(0, 0).len() == 0);
        assert(items.drop_first().len() == 0);
        assert(ser_items(items.subrange(0, 0)) == Seq::<u8>::empty());
        assert(ser_items(items.drop_first()) == Seq::<u8>::empty());
        assert(ser_items(items) == ser_items(items.subrange(0, 0)) + ser(items[0]));
        assert(ser_items(items) =~= ser(items[0]) + ser_items(items.drop_first()));
    } else {
        let p = items.subrange(0, items.len() - 1);
        lemma_ser_items_front(p);
        let d = items.drop_first();
        assert(p.drop_first() =~= d.subrange(0, d.len() - 1));
        assert(d[d.len() - 1] == items[items.len() - 1]);
        assert(p[0] == items[0]);
        assert(ser_items(d) == ser_items(p.drop_first()) + ser(items[items.len() - 1]));
        assert(ser_items(items) == ser_items(p) + ser(items[items.len() - 1]));
        assert(ser_items(items) =~= ser(items[0]) + ser_items(items.drop_first()));
    }
}

/// Every value that the decoder can read back is read back from its
/// encoding, whatever bytes follow it.
pub proof fn lemma_parse_ser(v: Resp, s: Seq<u8>, pos: int)
    requires
        wire_ok(v),
        0 <= pos,
        pos + ser(v).len() <= s.len(),
        s.subrange(pos, pos + ser(v).len()) == ser(v),
    ensures
        parse_spec(s, pos) == Ok::<(Resp, int), FrameError>((v, pos + ser(v).len())),
    decreases v,
{
    let w = ser(v);
    assert(s[pos] == w[0]);
    match v {
        Resp::Simple(t) => {
            lemma_sub(s, pos, w, 1, 1 + t.len() as int + 2);
            assert(w.subrange(1, 1 + t.len() as int + 2) =~= t + crlf());
            lemma_line(s, pos + 1, t);
        },
        Resp::Error(t) => {
            lemma_sub(s, pos, w, 1, 1 + t.len() as int + 2);
            assert(w.subrange(1, 1 + t.len() as int + 2) =~= t + crlf());
            lemma_line(s, pos + 1, t);
        },
        Resp::Int(i) => {
            let t = int_text(i);
            lemma_sub(s, pos, w, 1, 1 + t.len() as int + 2);
            assert(w.subrange(1, 1 + t.len() as int + 2) =~= t + crlf());
            lemma_digits_no_cr((if i < 0 { -i } else { i }) as nat);
            if t.contains(13u8) {
                let k = choose|k: int| 0 <= k < t.len() && t[k] == 13u8;
                if i < 0 {
                    assert(t[k] == nat_text((-i) as nat)[k - 1]);
                }
            }
            lemma_line(s, pos + 1, t);
            lemma_int_text_reads_back(i);
        },
        Resp::Bulk(None) => {
            lemma_sub(s, pos, w, 1, 5);
            assert(w.subrange(1, 5) =~= minus_one() + crlf());
            assert(!minus_one().contains(13u8));
            lemma_line(s, pos + 1, minus_one());
        },
        Resp::Bulk(Some(b)) => {
            let t = nat_text(b.len());
            lemma_digits_no_cr(b.len());
            lemma_nat_text_canonical(b.len());
            lemma_sub(s, pos, w, 1, 1 + t.len() as int + 2);
            assert(w.subrange(1, 1 + t.len() as int + 2) =~= t + crlf());
            lemma_line(s, pos + 1, t);
            let e = pos + 1 + t.len() + 2;
            let n = b.len() as int;
            lemma_sub(s, pos, w, e - pos, e - pos + n);
            assert(w.subrange(e - pos, e - pos + n) =~= b);
            assert(s[e + n] == w[e + n - pos]);
            assert(s[e + n + 1] == w[e + n + 1 - pos]);
        },
        Resp::Rdb(b) => {
            let t = nat_text(b.len());
            lemma_digits_no_cr(b.len());
            lemma_nat_text_canonical(b.len());
            lemma_sub(s, pos, w, 1, 1 + t.len() as int + 2);
            assert(w.subrange(1, 1 + t.len() as int + 2) =~= t + crlf());
            lemma_line(s, pos + 1, t);
            let e = pos + 1 + t.len() + 2;
            lemma_sub(s, pos, w, e - pos, e - pos + b.len());
            assert(w.subrange(e - pos, e - pos + b.len()) =~= b);
        },
        Resp::Arr(items) => {
            let t = nat_text(items.len());
            lemma_digits_no_cr(items.len());
            lemma_nat_text_canonical(items.len());
            lemma_sub(s, pos, w, 1, 1 + t.len() as int + 2);
            assert(w.subrange(1, 1 + t.len() as int + 2) =~= t + crlf());
            lemma_line(s, pos + 1, t);
            let e = pos + 1 + t.len() + 2;
            let body = ser_items(items);
            lemma_sub(s, pos, w, e - pos, e - pos + body.len());
            assert(w.subrange(e - pos, e - pos + body.len()) =~= body);
            lemma_items_ser(items, s, e);
        },
    }
}

pub proof fn lemma_items_ser(items: Seq<Resp>, s: Seq<u8>, pos: int)
    requires
        forall|i: int| 0 <= i < items.len() ==> wire_ok(#[trigger] items[i]),
        0 <= pos,
        pos + ser_items(items).len() <= s.len(),
        s.subrange(pos, pos + ser_items(items).len()) == ser_items(items),
    ensures
        parse_items(s, pos, items.len()) == Ok::<(Seq<Resp>, int), FrameError>((items, pos + ser_items(items).len())),
    decreases items,
{
    if items.len() > 0 {
        lemma_ser_items_front(items);
        let first = ser(items[0]);
        let rest = items.drop_first();
        let all = ser_items(items);
        assert(s.subrange(pos, pos + first.len()) =~= first) by {
            assert forall|i: int| 0 <= i < first.len() implies s.subrange(pos, pos + first.len())[i] == first[i] by {
                assert(s[pos + i] == all[i]);
            }
        }
        lemma_parse_ser(items[0], s, pos);
        let e = pos + first.len();
        crate::resp::lemma_ser_nonempty(items[0]);
        assert(s.subrange(e, e + ser_items(rest).len()) =~= ser_items(rest)) by {
            assert forall|i: int| 0 <= i < ser_items(rest).len() implies s.subrange(e, e + ser_items(rest).len())[i] == ser_items(rest)[i] by {
                assert(s[e + i] == all[first.len() + i]);
            }
        }
        assert(forall|i: int| 0 <= i < rest.len() ==> rest[i] == items[i + 1]);
        assert(decreases_to!(items => rest));
        lemma_items_ser(rest, s, e);
        assert(seq![items[0]] + rest =~= items);
    } else {
        assert(items =~= Seq::<Resp>::empty());
    }
}

/// Decoding the encoding of a value gives back that value and the length of
/// the encoding: for every value the decoder can read back, which takes in
/// every value but a simple string or error holding a CR, a bulk string that
/// reads as a snapshot, and a snapshot that does not.
pub proof fn lemma_round_trip(v: Resp)
    requires
        wire_ok(v),
    ensures
        parse_spec(ser(v), 0) == Ok::<(Resp, int), FrameError>((v, ser(v).len() as int)),
{
    assert(ser(v).subrange(0, ser(v).len() as int) =~= ser(v));
    lemma_parse_ser(v, ser(v), 0);
}

} // verus!
