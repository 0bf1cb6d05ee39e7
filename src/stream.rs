//! The streams engine: per-name logs of entries with strictly increasing IDs.
use vstd::prelude::*;
use crate::assoc::{keys_distinct, to_map, lemma_to_map_contains, lemma_to_map_index,
    lemma_to_map_update, lemma_to_map_push, bytes_eq};
use crate::entry_id::{EntryId, IdSpec, id_lt, id_le, id_less, id_less_eq, id_text, format_id,
    id_spec_of, parse_id_spec, bound_of, parse_bound};
use crate::resp::{Value, Resp, model, models, lemma_models, copy_bytes};
use crate::text::ascii;

verus! {

/// A field list: names and values, in the order given.
pub type Fields = Seq<(Seq<u8>, Seq<u8>)>;

/// An entry: its ID and its fields.
pub type Entry = (EntryId, Fields);

/// One appended entry.
pub struct StreamEntry {
    pub id: EntryId,
    pub fields: Vec<(Vec<u8>, Vec<u8>)>,
}

pub open spec fn fields_view(f: Seq<(Vec<u8>, Vec<u8>)>) -> Fields {
    f.map_values(|p: (Vec<u8>, Vec<u8>)| (p.0@, p.1@))
}

pub open spec fn entry_view(e: StreamEntry) -> Entry {
    (e.id, fields_view(e.fields@))
}

/// IDs strictly increase along the log.
pub open spec fn increasing(s: Seq<Entry>) -> bool {
    forall|i: int, j: int| 0 <= i < j < s.len() ==> id_lt(s[i].0, s[j].0)
}

/// The ID of the last entry, if any.
pub open spec fn last_id(s: Seq<Entry>) -> Option<EntryId> {
    if s.len() == 0 {
        None
    } else {
        Some(s.last().0)
    }
}

/// The sequence number that generation picks for millisecond `ms`.
pub open spec fn next_seq(last: Option<EntryId>, ms: u64) -> int {
    match last {
        Some(l) if l.ms == ms => l.seq + 1,
        _ => if ms == 0 {
            1
        } else {
            0
        },
    }
}

/// A generated ID for millisecond `ms`, when its sequence number fits.
pub open spec fn generated(last: Option<EntryId>, ms: u64) -> Option<EntryId> {
    if next_seq(last, ms) <= u64::MAX {
        Some(EntryId { ms, seq: next_seq(last, ms) as u64 })
    } else {
        None
    }
}

/// The ID that a specification resolves to, given the last ID and the time.
pub open spec fn resolve(sp: IdSpec, last: Option<EntryId>, now: u64) -> Option<EntryId> {
    match sp {
        IdSpec::Auto => generated(last, now),
        IdSpec::AutoSeq(ms) => generated(last, ms),
        IdSpec::Explicit(id) => Some(id),
    }
}

/// Why an append was refused.
#[derive(Clone, Copy, Debug, PartialEq, Eq, Structural)]
pub enum XaddError {
    /// The ID text is not an ID.
    InvalidId,
    /// The ID is `0-0`.
    ZeroId,
    /// The ID is not above the stream's last ID.
    NotGreater,
}

/// What appending with ID text `id` yields when the last ID is `last`.
pub open spec fn xadd_outcome(last: Option<EntryId>, id: Seq<u8>, now: u64) -> Result<EntryId, XaddError> {
    match id_spec_of(id) {
        None => Err(XaddError::InvalidId),
        Some(sp) => match resolve(sp, last, now) {
            None => Err(XaddError::NotGreater),
            Some(new_id) => if new_id.ms == 0 && new_id.seq == 0 {
                Err(XaddError::ZeroId)
            } else if last matches Some(l) && !id_lt(l, new_id) {
                Err(XaddError::NotGreater)
            } else {
                Ok(new_id)
            },
        },
    }
}

pub open spec fn xadd_error_text(e: XaddError) -> Seq<u8> {
    match e {
        XaddError::InvalidId => ascii("ERR Invalid stream ID specified as stream command argument"@),
        XaddError::ZeroId => ascii("ERR The ID specified in XADD must be greater than 0-0"@),
        XaddError::NotGreater => ascii(
            "ERR The ID specified in XADD is equal or smaller than the target stream top item"@,
        ),
    }
}

impl XaddError {
    /// The error message sent to clients.
    pub fn message(&self) -> (r: Vec<u8>)
        ensures
            r@ == xadd_error_text(*self),
    {
        match self {
            XaddError::InvalidId => {
                proof {
                    reveal_strlit("ERR Invalid stream ID specified as stream command argument");
                }
                crate::text::ascii_bytes("ERR Invalid stream ID specified as stream command argument")
            },
            XaddError::ZeroId => {
                proof {
                    reveal_strlit("ERR The ID specified in XADD must be greater than 0-0");
                }
                crate::text::ascii_bytes("ERR The ID specified in XADD must be greater than 0-0")
            },
            XaddError::NotGreater => {
                proof {
                    reveal_strlit(
                        "ERR The ID specified in XADD is equal or smaller than the target stream top item",
                    );
                }
                crate::text::ascii_bytes(
                    "ERR The ID specified in XADD is equal or smaller than the target stream top item",
                )
            },
        }
    }
}

/// The bulk strings `f1, v1, f2, v2, ...` of a field list.
pub open spec fn field_items(f: Fields) -> Seq<Resp>
    decreases f.len(),
{
    if f.len() == 0 {
        Seq::empty()
    } else {
        field_items(f.drop_last()) + seq![Resp::Bulk(Some(f.last().0)), Resp::Bulk(Some(f.last().1))]
    }
}

/// The reply for one entry: `[id, [f1, v1, ...]]`.
pub open spec fn entry_reply(e: Entry) -> Resp {
    Resp::Arr(seq![Resp::Bulk(Some(id_text(e.0))), Resp::Arr(field_items(e.1))])
}

/// The replies for the entries whose IDs lie in `[lo, hi]`, in log order.
pub open spec fn range_replies(s: Seq<Entry>, lo: EntryId, hi: EntryId) -> Seq<Resp>
    decreases s.len(),
{
    if s.len() == 0 {
        Seq::empty()
    } else if id_le(lo, s.last().0) && id_le(s.last().0, hi) {
        range_replies(s.drop_last(), lo, hi).push(entry_reply(s.last()))
    } else {
        range_replies(s.drop_last(), lo, hi)
    }
}

/// The first entry whose ID is above `after`.
pub open spec fn first_after(s: Seq<Entry>, after: EntryId) -> Option<Entry>
    decreases s.len(),
{
    if s.len() == 0 {
        None
    } else if id_lt(after, s[0].0) {
        Some(s[0])
    } else {
        first_after(s.drop_first(), after)
    }
}

/// The reply of a read over the requested streams, in request order: for each
/// stream with an entry above its ID, `[name, [entry]]`.
pub open spec fn read_replies(m: Map<Seq<u8>, Seq<Entry>>, req: Seq<(Seq<u8>, EntryId)>) -> Seq<Resp>
    decreases req.len(),
{
    if req.len() == 0 {
        Seq::empty()
    } else {
        let (name, after) = req.last();
        let rest = read_replies(m, req.drop_last());
        match first_after(entries_of(m, name), after) {
            None => rest,
            Some(e) => rest.push(Resp::Arr(seq![Resp::Bulk(Some(name)), Resp::Arr(seq![entry_reply(e)])])),
        }
    }
}

/// The entries of stream `name`, empty when there is none.
pub open spec fn entries_of(m: Map<Seq<u8>, Seq<Entry>>, name: Seq<u8>) -> Seq<Entry> {
    if m.contains_key(name) {
        m[name]
    } else {
        Seq::empty()
    }
}

struct NamedStream {
    name: Vec<u8>,
    entries: Vec<StreamEntry>,
}

spec fn named_view(n: NamedStream) -> (Seq<u8>, Seq<Entry>) {
    (n.name@, n.entries@.map_values(|e: StreamEntry| entry_view(e)))
}

/// All streams, by name.
pub struct Stream {
    streams: Vec<NamedStream>,
}

impl View for Stream {
    type V = Map<Seq<u8>, Seq<Entry>>;

    closed spec fn view(&self) -> Map<Seq<u8>, Seq<Entry>> {
        to_map(self.slots())
    }
}

/// The reply values of a field list.
fn field_values(f: &Vec<(Vec<u8>, Vec<u8>)>) -> (r: Vec<Value>)
    ensures
        models(r@) == field_items(fields_view(f@)),
{
    let mut r: Vec<Value> = Vec::new();
    let mut k: usize = 0;
    while k < f.len()
        invariant
            k <= f.len(),
            models(r@) == field_items(fields_view(f@.subrange(0, k as int))),
        decreases f.len() - k,
    {
        let ghost r0 = r@;
        r.push(Value::BulkString(Some(copy_bytes(f[k].0.as_slice()))));
        let ghost r1 = r@;
        r.push(Value::BulkString(Some(copy_bytes(f[k].1.as_slice()))));
        proof {
            assert(r1.subrange(0, r1.len() - 1) =~= r0);
            assert(r@.subrange(0, r@.len() - 1) =~= r1);
            assert(models(r@) == models(r1).push(model(r@[r@.len() - 1])));
            assert(models(r1) == models(r0).push(model(r1[r1.len() - 1])));
            let fv = fields_view(f@.subrange(0, k + 1));
            assert(fv.drop_last() =~= fields_view(f@.subrange(0, k as int)));
            assert(fv.last() == (f@[k as int].0@, f@[k as int].1@));
            assert(models(r@) =~= field_items(fv));
        }
        k = k + 1;
    }
    proof {
        assert(f@.subrange(0, k as int) =~= f@);
    }
    r
}

/// The reply for one entry.
fn entry_value(e: &StreamEntry) -> (r: Value)
    ensures
        r@ == entry_reply(entry_view(*e)),
{
    let id = Value::BulkString(Some(format_id(e.id)));
    let fields = Value::Array(field_values(&e.fields));
    let mut items: Vec<Value> = Vec::new();
    items.push(id);
    items.push(fields);
    proof {
        lemma_models(items@);
        assert(models(items@) =~= seq![Resp::Bulk(Some(id_text(e.id))), Resp::Arr(field_items(fields_view(e.fields@)))]);
    }
    Value::Array(items)
}

impl Stream {
    closed spec fn slots(&self) -> Seq<(Seq<u8>, Seq<Entry>)> {
        self.streams@.map_values(|n: NamedStream| named_view(n))
    }

    /// Stream names are distinct; each stream is non-empty with strictly
    /// increasing IDs.
    pub closed spec fn wf(&self) -> bool {
        &&& keys_distinct(self.slots())
        &&& forall|i: int| 0 <= i < self.slots().len() ==> #[trigger] self.slots()[i].1.len() > 0
            && increasing(self.slots()[i].1)
    }

    /// Every stream of a well-formed engine is non-empty with strictly
    /// increasing IDs.
    pub proof fn lemma_wf_streams(&self, name: Seq<u8>)
        requires
            self.wf(),
            self@.contains_key(name),
        ensures
            self@[name].len() > 0,
            increasing(self@[name]),
    {
        lemma_to_map_contains(self.slots(), name);
        let i = choose|i: int| 0 <= i < self.slots().len() && self.slots()[i].0 == name;
        lemma_to_map_index(self.slots(), i);
    }

    /// No streams.
    pub fn new() -> (r: Stream)
        ensures
            r.wf(),
            r@ == Map::<Seq<u8>, Seq<Entry>>::empty(),
    {
        let r = Stream { streams: Vec::new() };
        proof {
            assert(r.slots() =~= Seq::<(Seq<u8>, Seq<Entry>)>::empty());
        }
        r
    }

    fn find(&self, name: &[u8]) -> (r: Option<usize>)
        requires
            self.wf(),
        ensures
            r is None ==> !self@.contains_key(name@),
            r matches Some(i) ==> i < self.streams.len() && self.slots()[i as int].0 == name@
                && self@.contains_key(name@) && self@[name@] == self.slots()[i as int].1,
    {
        let mut i: usize = 0;
        while i < self.streams.len()
            invariant
                self.wf(),
                i <= self.streams.len(),
                forall|j: int| 0 <= j < i ==> self.slots()[j].0 != name@,
            decreases self.streams.len() - i,
        {
            if bytes_eq(self.streams[i].name.as_slice(), name) {
                proof {
                    lemma_to_map_index(self.slots(), i as int);
                }
                return Some(i);
            }
            i = i + 1;
        }
        proof {
            lemma_to_map_contains(self.slots(), name@);
        }
        None
    }

    /// Whether a stream named `name` exists.
    pub fn contains(&self, name: &[u8]) -> (r: bool)
        requires
            self.wf(),
        ensures
            r == self@.contains_key(name@),
    {
        self.find(name).is_some()
    }

    /// The last ID of stream `name`, or `0-0` when there is none.
    pub fn last_entry_id(&self, name: &[u8]) -> (r: EntryId)
        requires
            self.wf(),
        ensures
            r == (match last_id(entries_of(self@, name@)) {
                Some(l) => l,
                None => EntryId { ms: 0, seq: 0 },
            }),
    {
        match self.find(name) {
            None => EntryId { ms: 0, seq: 0 },
            Some(i) => {
                let n = self.streams[i].entries.len();
                proof {
                    assert(self.slots()[i as int].1.len() > 0);
                }
                self.streams[i].entries[n - 1].id
            },
        }
    }

    /// Appends an entry to stream `name` (created when absent) with the ID that
    /// `id` gives, at wall-clock millisecond `now`.
    pub fn insert_stream_item(
        &mut self,
        name: &[u8],
        id: &[u8],
        fields: Vec<(Vec<u8>, Vec<u8>)>,
        now: u64,
    ) -> (r: Result<EntryId, XaddError>)
        requires
            old(self).wf(),
        ensures
            final(self).wf(),
            r == xadd_outcome(last_id(entries_of(old(self)@, name@)), id@, now),
            r matches Ok(new_id) ==> final(self)@ == old(self)@.insert(
                name@,
                entries_of(old(self)@, name@).push((new_id, fields_view(fields@))),
            ),
            r is Err ==> final(self)@ == old(self)@,
    {
        let found = self.find(name);
        let last: Option<EntryId> = match found {
            None => None,
            Some(i) => {
                let n = self.streams[i].entries.len();
                proof {
                    assert(self.slots()[i as int].1.len() > 0);
                }
                Some(self.streams[i].entries[n - 1].id)
            },
        };
        let sp = match parse_id_spec(id) {
            None => {
                return Err(XaddError::InvalidId);
            },
            Some(sp) => sp,
        };
        let resolved: Option<EntryId> = match sp {
            IdSpec::Explicit(e) => Some(e),
            IdSpec::Auto => generate_unique_id(last, now),
            IdSpec::AutoSeq(ms) => generate_unique_id(last, ms),
        };
        let new_id = match resolved {
            None => {
                return Err(XaddError::NotGreater);
            },
            Some(x) => x,
        };
        if new_id.ms == 0 && new_id.seq == 0 {
            return Err(XaddError::ZeroId);
        }
        match last {
            Some(l) => {
                if !id_less(l, new_id) {
                    return Err(XaddError::NotGreater);
                }
            },
            None => {},
        }
        let ghost s = self.slots();
        let ghost fv = fields_view(fields@);
        let entry = StreamEntry { id: new_id, fields };
        match found {
            Some(i) => {
                let mut named = NamedStream { name: Vec::new(), entries: Vec::new() };
                std::mem::swap(&mut named, &mut self.streams[i]);
                let ghost old_entries = named.entries@.map_values(|e: StreamEntry| entry_view(e));
                named.entries.push(entry);
                proof {
                    assert(old_entries == s[i as int].1);
                    let ne = named.entries@.map_values(|e: StreamEntry| entry_view(e));
                    assert(ne =~= old_entries.push((new_id, fv)));
                    assert(increasing(ne)) by {
                        assert forall|a: int, b: int| 0 <= a < b < ne.len() implies id_lt(ne[a].0, ne[b].0) by {
                            if b == ne.len() - 1 {
                                if a < b - 1 {
                                    assert(id_lt(old_entries[a].0, old_entries[old_entries.len() - 1].0));
                                }
                            } else {
                                assert(ne[a] == old_entries[a] && ne[b] == old_entries[b]);
                            }
                        }
                    }
                }
                self.streams.set(i, named);
                proof {
                    let nv = (name@, s[i as int].1.push((new_id, fv)));
                    lemma_to_map_update(s, i as int, nv.1);
                    assert(self.slots() =~= s.update(i as int, (s[i as int].0, nv.1)));
                    assert forall|j: int| 0 <= j < self.slots().len() implies #[trigger] self.slots()[j].1.len() > 0
                        && increasing(self.slots()[j].1) by {
                        if j != i {
                            assert(self.slots()[j] == s[j]);
                        }
                    }
                }
            },
            None => {
                let mut entries: Vec<StreamEntry> = Vec::new();
                entries.push(entry);
                let named = NamedStream { name: copy_bytes(name), entries };
                self.streams.push(named);
                proof {
                    let ne = seq![(new_id, fv)];
                    assert(named_view(named).1 =~= ne);
                    assert(Seq::<Entry>::empty().push((new_id, fv)) =~= ne);
                    lemma_to_map_push(s, name@, ne);
                    assert(self.slots() =~= s.push((name@, ne)));
                    assert forall|j: int| 0 <= j < self.slots().len() implies #[trigger] self.slots()[j].1.len() > 0
                        && increasing(self.slots()[j].1) by {
                        if j < s.len() {
                            assert(self.slots()[j] == s[j]);
                        }
                    }
                }
            },
        }
        Ok(new_id)
    }

    /// The entries of stream `name` whose IDs lie between the endpoints `start`
    /// and `end` (both included), in order; an endpoint that is not an ID text
    /// is refused.
    pub fn xrange(&self, name: &[u8], start: &[u8], end: &[u8]) -> (r: Result<Vec<Value>, XaddError>)
        requires
            self.wf(),
        ensures
            match (bound_of(start@, false), bound_of(end@, true)) {
                (Some(lo), Some(hi)) => r matches Ok(v) && models(v@) == range_replies(
                    entries_of(self@, name@),
                    lo,
                    hi,
                ),
                _ => r == Err::<Vec<Value>, XaddError>(XaddError::InvalidId),
            },
    {
        let lo = match parse_bound(start, false) {
            None => {
                return Err(XaddError::InvalidId);
            },
            Some(b) => b,
        };
        let hi = match parse_bound(end, true) {
            None => {
                return Err(XaddError::InvalidId);
            },
            Some(b) => b,
        };
        let mut out: Vec<Value> = Vec::new();
        match self.find(name) {
            None => {
                proof {
                    assert(models(out@) =~= Seq::<Resp>::empty());
                }
            },
            Some(i) => {
                let entries = &self.streams[i].entries;
                let ghost ev = entries@.map_values(|e: StreamEntry| entry_view(e));
                let mut k: usize = 0;
                while k < entries.len()
                    invariant
                        k <= entries.len(),
                        ev == entries@.map_values(|e: StreamEntry| entry_view(e)),
                        models(out@) == range_replies(ev.subrange(0, k as int), lo, hi),
                    decreases entries.len() - k,
                {
                    let ghost pre = ev.subrange(0, k as int);
                    proof {
                        assert(ev.subrange(0, k + 1).drop_last() =~= pre);
                    }
                    let e = &entries[k];
                    if id_less_eq(lo, e.id) && id_less_eq(e.id, hi) {
                        let ghost o0 = out@;
                        out.push(entry_value(e));
                        proof {
                            assert(out@.subrange(0, out@.len() - 1) =~= o0);
                        }
                    }
                    k = k + 1;
                }
                proof {
                    assert(ev.subrange(0, k as int) =~= ev);
                }
            },
        }
        Ok(out)
    }

    /// For each requested `(name, after)`, the first entry of that stream with
    /// an ID above `after`, as `[name, [entry]]`; streams without one are left out.
    pub fn xread(&self, req: &Vec<(Vec<u8>, EntryId)>) -> (r: Vec<Value>)
        requires
            self.wf(),
        ensures
            models(r@) == read_replies(self@, req@.map_values(|p: (Vec<u8>, EntryId)| (p.0@, p.1))),
    {
        let ghost rv = req@.map_values(|p: (Vec<u8>, EntryId)| (p.0@, p.1));
        let mut out: Vec<Value> = Vec::new();
        let mut k: usize = 0;
        while k < req.len()
            invariant
                self.wf(),
                k <= req.len(),
                rv == req@.map_values(|p: (Vec<u8>, EntryId)| (p.0@, p.1)),
                models(out@) == read_replies(self@, rv.subrange(0, k as int)),
            decreases req.len() - k,
        {
            proof {
                assert(rv.subrange(0, k + 1).drop_last() =~= rv.subrange(0, k as int));
            }
            let name = &req[k].0;
            let after = req[k].1;
            proof {
                assert(rv[k as int] == (name@, after));
            }
            match self.find(name.as_slice()) {
                None => {
                    proof {
                        assert(entries_of(self@, name@) =~= Seq::<Entry>::empty());
                    }
                },
                Some(i) => {
                    match self.first_entry_after(i, after) {
                        None => {},
                        Some(j) => {
                            let ev = entry_value(&self.streams[i].entries[j]);
                            let mut inner: Vec<Value> = Vec::new();
                            inner.push(ev);
                            let mut pair: Vec<Value> = Vec::new();
                            pair.push(Value::BulkString(Some(copy_bytes(name.as_slice()))));
                            pair.push(Value::Array(inner));
                            let ghost o0 = out@;
                            out.push(Value::Array(pair));
                            proof {
                                lemma_models(inner@);
                                lemma_models(pair@);
                                assert(models(inner@) =~= seq![model(inner@[0])]);
                                assert(models(pair@) =~= seq![model(pair@[0]), model(pair@[1])]);
                                assert(out@.subrange(0, out@.len() - 1) =~= o0);
                                assert(models(out@) == models(o0).push(model(out@[out@.len() - 1])));
                            }
                        },
                    }
                },
            }
            k = k + 1;
        }
        proof {
            assert(rv.subrange(0, k as int) =~= rv);
        }
        out
    }

    /// The position of the first entry of stream `i` above `after`.
    fn first_entry_after(&self, i: usize, after: EntryId) -> (r: Option<usize>)
        requires
            self.wf(),
            i < self.streams.len(),
        ensures
            match first_after(self.slots()[i as int].1, after) {
                None => r is None,
                Some(e) => r matches Some(j) && j < self.streams[i as int].entries.len() && entry_view(
                    self.streams[i as int].entries@[j as int],
                ) == e,
            },
    {
        let entries = &self.streams[i].entries;
        let ghost ev = self.slots()[i as int].1;
        proof {
            assert(self.slots().len() == self.streams.len());
            assert(self.slots()[i as int] == named_view(self.streams@[i as int]));
            assert(ev == entries@.map_values(|e: StreamEntry| entry_view(e)));
        }
        proof {
            assert(ev.subrange(0, ev.len() as int) =~= ev);
        }
        let mut k: usize = 0;
        while k < entries.len()
            invariant
                k <= entries.len(),
                i < self.streams.len(),
                *entries == self.streams@[i as int].entries,
                ev == self.slots()[i as int].1,
                ev == entries@.map_values(|e: StreamEntry| entry_view(e)),
                first_after(ev, after) == first_after(ev.subrange(k as int, ev.len() as int), after),
            decreases entries.len() - k,
        {
            let ghost rest = ev.subrange(k as int, ev.len() as int);
            proof {
                assert(rest.drop_first() =~= ev.subrange(k + 1, ev.len() as int));
                assert(rest[0] == ev[k as int]);
            }
            if id_less(after, entries[k].id) {
                proof {
                    assert(entry_view(entries@[k as int]) == ev[k as int]);
                    assert(first_after(rest, after) == Some(rest[0]));
                }
                return Some(k);
            }
            k = k + 1;
        }
        proof {
            assert(ev.subrange(k as int, ev.len() as int).len() == 0);
        }
        None
    }
}

/// The ID generated for millisecond `ms` after `last`.
fn generate_unique_id(last: Option<EntryId>, ms: u64) -> (r: Option<EntryId>)
    ensures
        r == generated(last, ms),
{
    match last {
        Some(l) => {
            if l.ms == ms {
                if l.seq == u64::MAX {
                    return None;
                }
                return Some(EntryId { ms, seq: l.seq + 1 });
            }
        },
        None => {},
    }
    if ms == 0 {
        Some(EntryId { ms, seq: 1 })
    } else {
        Some(EntryId { ms, seq: 0 })
    }
}

} // verus!
