//! RESP values and their wire encoding.
use vstd::prelude::*;
use crate::decimal::{nat_text, int_text, push_nat, push_int};

verus! {

/// A RESP value. Text payloads are byte strings.
#[derive(Debug, PartialEq, Eq, Hash)]
pub enum Value {
    SimpleString(Vec<u8>),
    Error(Vec<u8>),
    /// `None` is the null bulk string.
    BulkString(Option<Vec<u8>>),
    Integer(i64),
    Array(Vec<Value>),
    /// A snapshot sent as a bulk payload without the trailing CRLF.
    RdbFile(Vec<u8>),
}

/// The mathematical model of a [`Value`].
pub enum Resp {
    Simple(Seq<u8>),
    Error(Seq<u8>),
    Bulk(Option<Seq<u8>>),
    Int(int),
    Arr(Seq<Resp>),
    Rdb(Seq<u8>),
}

/// The model of an executable value.
pub open spec fn model(v: Value) -> Resp
    decreases v,
{
    match v {
        Value::SimpleString(s) => Resp::Simple(s@),
        Value::Error(s) => Resp::Error(s@),
        Value::BulkString(None) => Resp::Bulk(None),
        Value::BulkString(Some(b)) => Resp::Bulk(Some(b@)),
        Value::Integer(i) => Resp::Int(i as int),
        Value::Array(items) => Resp::Arr(models(items@)),
        Value::RdbFile(b) => Resp::Rdb(b@),
    }
}

/// The models of a sequence of executable values.
pub open spec fn models(s: Seq<Value>) -> Seq<Resp>
    decreases s,
{
    if s.len() == 0 {
        Seq::empty()
    } else {
        models(s.subrange(0, s.len() - 1)).push(model(s[s.len() - 1]))
    }
}

impl View for Value {
    type V = Resp;

    open spec fn view(&self) -> Resp {
        model(*self)
    }
}

pub open spec fn crlf() -> Seq<u8> {
    seq![13u8, 10u8]
}

/// The wire encoding of a value.
pub open spec fn ser(v: Resp) -> Seq<u8>
    decreases v,
{
    match v {
        Resp::Simple(s) => seq![43u8] + s + crlf(),
        Resp::Error(s) => seq![45u8] + s + crlf(),
        Resp::Bulk(None) => seq![36u8, 45u8, 49u8] + crlf(),
        Resp::Bulk(Some(b)) => seq![36u8] + nat_text(b.len()) + crlf() + b + crlf(),
        Resp::Int(i) => seq![58u8] + int_text(i) + crlf(),
        Resp::Arr(items) => seq![42u8] + nat_text(items.len()) + crlf() + ser_items(items),
        Resp::Rdb(b) => seq![36u8] + nat_text(b.len()) + crlf() + b,
    }
}

/// The encodings of a sequence of values, back to back.
pub open spec fn ser_items(s: Seq<Resp>) -> Seq<u8>
    decreases s,
{
    if s.len() == 0 {
        Seq::empty()
    } else {
        ser_items(s.subrange(0, s.len() - 1)) + ser(s[s.len() - 1])
    }
}

/// Every encoding has at least one byte.
pub proof fn lemma_ser_nonempty(v: Resp)
    ensures
        ser(v).len() > 0,
{
}

/// The models of a vector's items, index by index.
pub proof fn lemma_models(s: Seq<Value>)
    ensures
        models(s).len() == s.len(),
        forall|i: int| 0 <= i < s.len() ==> #[trigger] models(s)[i] == model(s[i]),
    decreases s.len(),
{
    if s.len() > 0 {
        lemma_models(s.subrange(0, s.len() - 1));
    }
}

/// Models of a prefix extended by one item.
pub proof fn lemma_models_push(s: Seq<Value>, k: int)
    requires
        0 <= k < s.len(),
    ensures
        models(s.subrange(0, k + 1)) == models(s.subrange(0, k)).push(model(s[k])),
{
    assert(s.subrange(0, k + 1).subrange(0, k) =~= s.subrange(0, k));
}

/// Appends the wire encoding of `v` to `out`.
pub fn write_value(v: &Value, out: &mut Vec<u8>)
    ensures
        final(out)@ == old(out)@ + ser(v@),
    decreases v,
{
    match v {
        Value::SimpleString(s) => {
            out.push(43u8);
            push_bytes(out, s.as_slice());
            push_crlf(out);
        },
        Value::Error(s) => {
            out.push(45u8);
            push_bytes(out, s.as_slice());
            push_crlf(out);
        },
        Value::BulkString(None) => {
            out.push(36u8);
            out.push(45u8);
            out.push(49u8);
            push_crlf(out);
        },
        Value::BulkString(Some(b)) => {
            out.push(36u8);
            push_nat(out, b.len() as u64);
            push_crlf(out);
            push_bytes(out, b.as_slice());
            push_crlf(out);
        },
        Value::Integer(i) => {
            out.push(58u8);
            push_int(out, *i);
            push_crlf(out);
        },
        Value::Array(items) => {
            out.push(42u8);
            push_nat(out, items.len() as u64);
            push_crlf(out);
            let ghost start = out@;
            let mut k: usize = 0;
            while k < items.len()
                invariant
                    k <= items.len(),
                    start == old(out)@ + seq![42u8] + nat_text(items.len() as nat) + crlf(),
                    out@ == start + ser_items(models(items@.subrange(0, k as int))),
                    *v == Value::Array(*items),
                decreases items.len() - k,
            {
                proof {
                    assert(decreases_to!(*v => v->Array_0));
                    assert(decreases_to!(*items => items[k as int]));
                    lemma_models_push(items@, k as int);
                    lemma_models(items@.subrange(0, k as int));
                    let m = models(items@.subrange(0, k + 1));
                    assert(m.subrange(0, k as int) =~= models(items@.subrange(0, k as int)));
                }
                write_value(&items[k], out);
                proof {
                    assert(start + ser_items(models(items@.subrange(0, k + 1))) =~= out@);
                }
                k = k + 1;
            }
            proof {
                assert(items@.subrange(0, items.len() as int) =~= items@);
                lemma_models(items@);
                assert(v@ == Resp::Arr(models(items@)));
                assert(out@ =~= old(out)@ + ser(v@));
            }
        },
        Value::RdbFile(b) => {
            out.push(36u8);
            push_nat(out, b.len() as u64);
            push_crlf(out);
            push_bytes(out, b.as_slice());
        },
    }
    proof {
        assert(final(out)@ =~= old(out)@ + ser(v@));
    }
}

fn push_crlf(out: &mut Vec<u8>)
    ensures
        final(out)@ == old(out)@ + crlf(),
{
    out.push(13u8);
    out.push(10u8);
    proof {
        assert(final(out)@ =~= old(out)@ + crlf());
    }
}

/// Appends the bytes of `b` to `out`.
pub fn push_bytes(out: &mut Vec<u8>, b: &[u8])
    ensures
        final(out)@ == old(out)@ + b@,
{
    let ghost start = out@;
    let mut k: usize = 0;
    while k < b.len()
        invariant
            k <= b.len(),
            out@ == start + b@.subrange(0, k as int),
        decreases b.len() - k,
    {
        out.push(b[k]);
        proof {
            assert(start + b@.subrange(0, k + 1) =~= out@);
        }
        k = k + 1;
    }
    proof {
        assert(b@.subrange(0, b.len() as int) =~= b@);
    }
}

/// A copy of `b`.
pub fn copy_bytes(b: &[u8]) -> (r: Vec<u8>)
    ensures
        r@ == b@,
{
    let mut r: Vec<u8> = Vec::new();
    push_bytes(&mut r, b);
    proof {
        assert(r@ =~= b@);
    }
    r
}

impl Clone for Value {
    fn clone(&self) -> (r: Self)
        ensures
            r@ == self@,
        decreases self,
    {
        match self {
            Value::SimpleString(s) => Value::SimpleString(copy_bytes(s.as_slice())),
            Value::Error(s) => Value::Error(copy_bytes(s.as_slice())),
            Value::BulkString(None) => Value::BulkString(None),
            Value::BulkString(Some(b)) => Value::BulkString(Some(copy_bytes(b.as_slice()))),
            Value::Integer(i) => Value::Integer(*i),
            Value::Array(items) => {
                let mut r: Vec<Value> = Vec::new();
                let mut k: usize = 0;
                while k < items.len()
                    invariant
                        k <= items.len(),
                        models(r@) == models(items@.subrange(0, k as int)),
                        *self == Value::Array(*items),
                    decreases items.len() - k,
                {
                    proof {
                        assert(decreases_to!(*self => self->Array_0));
                        assert(decreases_to!(*items => items[k as int]));
                    }
                    let c = items[k].clone();
                    let ghost r0 = r@;
                    r.push(c);
                    proof {
                        lemma_models_push(items@, k as int);
                        assert(r@.subrange(0, r@.len() - 1) =~= r0);
                    }
                    k = k + 1;
                }
                proof {
                    assert(items@.subrange(0, items.len() as int) =~= items@);
                }
                Value::Array(r)
            },
            Value::RdbFile(b) => Value::RdbFile(copy_bytes(b.as_slice())),
        }
    }
}

impl Value {
    /// The wire encoding of this value.
    pub fn serialize(&self) -> (r: Vec<u8>)
        ensures
            r@ == ser(self@),
    {
        let mut out: Vec<u8> = Vec::new();
        write_value(self, &mut out);
        proof {
            assert(out@ =~= ser(self@));
        }
        out
    }
}

} // verus!
