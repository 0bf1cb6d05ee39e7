//! The shared server state and the meaning of each command on it.
use vstd::prelude::*;
use crate::decimal::{int_text, int_of_text, push_int};
use crate::entry_id::{EntryId, parse_u64_spec};
use crate::glob::key_matches;
use crate::info::{RCliInfo};
use crate::keyspace::{Keyspace, Stored, live, current, sum_fits};
use crate::replication::Slaves;
use crate::resp::{Value, Resp, model, models, copy_bytes, push_bytes};
use crate::stream::{Stream, Entry, Fields};
use crate::text::{ascii, ascii_bytes, lower, eq_ignore_case};

verus! {

/// The abstract state of the server.
pub struct ServerView {
    pub keys: Map<Seq<u8>, Stored>,
    pub streams: Map<Seq<u8>, Seq<Entry>>,
    pub handshakes: Map<Seq<u8>, Seq<u8>>,
    pub replicas: Seq<Seq<u8>>,
    pub acks: Seq<u64>,
    pub cursors: Seq<usize>,
    pub log: Seq<Resp>,
    pub offset: u64,
    pub role: Seq<u8>,
    pub replid: Seq<u8>,
    pub dir: Seq<u8>,
    pub dbfilename: Seq<u8>,
    pub port: Seq<u8>,
    pub bytes_applied: u64,
}

/// What a command asks of the connection.
pub enum Outcome {
    /// Send this reply.
    Reply(Value),
    /// Poll these reads until one yields or the milliseconds (0: no limit) pass.
    BlockRead(u64, Vec<(Vec<u8>, EntryId)>),
    /// Poll the count of caught-up replicas until it reaches the first number
    /// or the milliseconds in the second pass.
    Wait(u64, u64),
}

/// The model of an [`Outcome`].
pub enum Verdict {
    Reply(Resp),
    BlockRead(u64, Seq<(Seq<u8>, EntryId)>),
    Wait(u64, u64),
}

pub open spec fn request_view(req: Seq<(Vec<u8>, EntryId)>) -> Seq<(Seq<u8>, EntryId)> {
    req.map_values(|p: (Vec<u8>, EntryId)| (p.0@, p.1))
}

impl View for Outcome {
    type V = Verdict;

    open spec fn view(&self) -> Verdict {
        match self {
            Outcome::Reply(v) => Verdict::Reply(v@),
            Outcome::BlockRead(ms, req) => Verdict::BlockRead(*ms, request_view(req@)),
            Outcome::Wait(n, t) => Verdict::Wait(*n, *t),
        }
    }
}

pub open spec fn arg_views(a: Seq<Vec<u8>>) -> Seq<Seq<u8>> {
    a.map_values(|v: Vec<u8>| v@)
}

/// `c` names the command `lit`, ignoring ASCII case.
pub open spec fn cmd_is(c: Seq<u8>, lit: Seq<char>) -> bool {
    lower(c) == lower(ascii(lit))
}

pub fn is_command(c: &[u8], lit: &str) -> (r: bool)
    requires
        lit.is_ascii(),
    ensures
        r == cmd_is(c@, lit@),
{
    let l = ascii_bytes(lit);
    eq_ignore_case(c, l.as_slice())
}

pub open spec fn simple(lit: Seq<char>) -> Resp {
    Resp::Simple(ascii(lit))
}

pub open spec fn error(lit: Seq<char>) -> Resp {
    Resp::Error(ascii(lit))
}

/// The reply to a command given the wrong number of arguments.
pub open spec fn arity(cmd: Seq<char>) -> Resp {
    Resp::Error(ascii("Wrong number of arguments for "@) + ascii(cmd))
}

pub(crate) fn simple_value(lit: &str) -> (r: Value)
    requires
        lit.is_ascii(),
    ensures
        r@ == simple(lit@),
{
    Value::SimpleString(ascii_bytes(lit))
}

pub(crate) fn error_value(lit: &str) -> (r: Value)
    requires
        lit.is_ascii(),
    ensures
        r@ == error(lit@),
{
    Value::Error(ascii_bytes(lit))
}

pub(crate) fn arity_value(cmd: &str) -> (r: Value)
    requires
        cmd.is_ascii(),
    ensures
        r@ == arity(cmd@),
{
    proof {
        reveal_strlit("Wrong number of arguments for ");
    }
    let mut m = ascii_bytes("Wrong number of arguments for ");
    let c = ascii_bytes(cmd);
    push_bytes(&mut m, c.as_slice());
    Value::Error(m)
}

/// What SET stores for a payload: an integer when the payload is the
/// canonical decimal text of an `i64`, the payload itself otherwise.
pub open spec fn stored_of(v: Seq<u8>) -> Resp {
    match int_of_text(v) {
        Some(i) => Resp::Int(i),
        None => Resp::Bulk(Some(v)),
    }
}

/// The expiry that SET's options give, read left to right, the last one
/// winning; or the error reply for bad options.
pub open spec fn set_options(o: Seq<Seq<u8>>, now: u64, acc: Option<u64>) -> Result<Option<u64>, Resp>
    decreases o.len(),
{
    if o.len() == 0 {
        Ok(acc)
    } else if cmd_is(o[0], "px"@) {
        if o.len() < 2 {
            Err(arity("PX"@))
        } else {
            match parse_u64_spec(o[1]) {
                Some(ms) if now + ms <= u64::MAX => set_options(
                    o.subrange(2, o.len() as int),
                    now,
                    Some((now + ms) as u64),
                ),
                _ => Err(error("Invalid TTL value for PX"@)),
            }
        }
    } else if cmd_is(o[0], "ex"@) {
        if o.len() < 2 {
            Err(arity("EX"@))
        } else {
            match parse_u64_spec(o[1]) {
                Some(s) if now + s * 1000 <= u64::MAX => set_options(
                    o.subrange(2, o.len() as int),
                    now,
                    Some((now + s * 1000) as u64),
                ),
                _ => Err(error("Invalid TTL value for EX"@)),
            }
        }
    } else {
        Err(Resp::Error(ascii("Unknown option: "@) + o[0]))
    }
}

/// The reply to GET.
pub open spec fn get_reply(m: Map<Seq<u8>, Stored>, k: Seq<u8>, now: u64) -> Resp {
    match current(m, k, now) {
        Some((Resp::Int(n), _)) => Resp::Bulk(Some(int_text(n))),
        Some((Resp::Bulk(Some(b)), _)) => Resp::Bulk(Some(b)),
        _ => Resp::Bulk(None),
    }
}

/// The keyspace after a read of `k`: an expired `k` is gone.
pub open spec fn after_read(m: Map<Seq<u8>, Stored>, k: Seq<u8>, now: u64) -> Map<Seq<u8>, Stored> {
    if m.contains_key(k) && !live(m[k], now) {
        m.remove(k)
    } else {
        m
    }
}

/// The result of adding `delta` to the integer under `k`, and the keyspace after.
pub open spec fn incr_effect(m: Map<Seq<u8>, Stored>, k: Seq<u8>, delta: int, now: u64) -> (Option<int>, Map<Seq<u8>, Stored>) {
    match current(m, k, now) {
        None => if i64::MIN <= delta <= i64::MAX {
            (Some(delta), m.insert(k, (Resp::Int(delta), None)))
        } else {
            (None, m)
        },
        Some((Resp::Int(n), t)) => if sum_fits(n, delta) {
            (Some(n + delta), m.insert(k, (Resp::Int(n + delta), t)))
        } else {
            (None, m)
        },
        Some(_) => (None, m),
    }
}

pub open spec fn one_or_zero(b: bool) -> Resp {
    Resp::Int(if b { 1 } else { 0 })
}

/// Whether `r` answers KEYS for a pattern with wildcards: an array holding
/// each matching live key once, as bulk strings.
pub open spec fn keys_reply_ok(m: Map<Seq<u8>, Stored>, p: Seq<u8>, now: u64, r: Resp) -> bool {
    r matches Resp::Arr(items) && (forall|i: int| 0 <= i < items.len() ==> #[trigger] items[i] is Bulk
        && items[i]->Bulk_0 is Some) && (forall|i: int, j: int|
        0 <= i < j < items.len() ==> items[i] != items[j]) && (forall|k: Seq<u8>|
        #[trigger] bulk_among(items, k) <==> (current(m, k, now) is Some && key_matches(p, k)))
}

/// Whether the bulk string `k` is one of `items`.
pub open spec fn bulk_among(items: Seq<Resp>, k: Seq<u8>) -> bool {
    exists|i: int| 0 <= i < items.len() && items[i] == Resp::Bulk(Some(k))
}

/// The reply to CONFIG GET.
pub open spec fn config_reply(s: ServerView, name: Seq<u8>) -> Resp {
    if name == ascii("dir"@) {
        Resp::Arr(seq![Resp::Bulk(Some(name)), Resp::Bulk(Some(s.dir))])
    } else if name == ascii("dbfilename"@) {
        Resp::Arr(seq![Resp::Bulk(Some(name)), Resp::Bulk(Some(s.dbfilename))])
    } else if name == ascii("port"@) {
        Resp::Arr(seq![Resp::Bulk(Some(name)), Resp::Bulk(Some(s.port))])
    } else {
        Resp::Bulk(None)
    }
}

/// The field-value pairs of a flat argument list.
pub open spec fn pairs_of(a: Seq<Seq<u8>>) -> Fields {
    Seq::new(a.len() / 2, |i: int| (a[2 * i], a[2 * i + 1]))
}

/// The shared state of a server.
pub struct Config {
    pub keyspace: Keyspace,
    pub streams: Stream,
    pub slaves: Slaves,
    pub rcliinfo: RCliInfo,
    pub dir: Vec<u8>,
    pub dbfilename: Vec<u8>,
    pub port: Vec<u8>,
    /// Auxiliary fields read from a snapshot.
    pub metadata: Vec<(Vec<u8>, Value)>,
    /// On a replica, the bytes of commands applied from the master.
    pub bytes_applied: u64,
}

impl Config {
    pub open spec fn wf(&self) -> bool {
        self.keyspace.wf() && self.streams.wf() && self.slaves.wf()
    }

    pub open spec fn state(&self) -> ServerView {
        ServerView {
            keys: self.keyspace@,
            streams: self.streams@,
            handshakes: self.slaves.handshakes_view(),
            replicas: self.slaves.addrs(),
            acks: self.slaves.acks(),
            cursors: self.slaves.cursors(),
            log: self.slaves.log_view(),
            offset: self.slaves.offset(),
            role: self.rcliinfo.role@,
            replid: self.rcliinfo.master_replid@,
            dir: self.dir@,
            dbfilename: self.dbfilename@,
            port: self.port@,
            bytes_applied: self.bytes_applied,
        }
    }

    /// A master with empty keyspace and streams, `./dump.rdb` as snapshot and
    /// port 6379.
    pub fn new() -> (r: Config)
        ensures
            r.wf(),
            r.state().keys == Map::<Seq<u8>, Stored>::empty(),
            r.state().streams == Map::<Seq<u8>, Seq<Entry>>::empty(),
            r.state().replicas.len() == 0,
            r.state().log.len() == 0,
            r.state().offset == 0,
            r.state().role == ascii("master"@),
            r.state().dir == ascii("./"@),
            r.state().dbfilename == ascii("dump.rdb"@),
            r.state().port == ascii("6379"@),
            r.state().bytes_applied == 0,
    {
        proof {
            reveal_strlit("./");
            reveal_strlit("dump.rdb");
            reveal_strlit("6379");
        }
        Config {
            keyspace: Keyspace::new(),
            streams: Stream::new(),
            slaves: Slaves::new(),
            rcliinfo: RCliInfo::new(),
            dir: ascii_bytes("./"),
            dbfilename: ascii_bytes("dump.rdb"),
            port: ascii_bytes("6379"),
            metadata: Vec::new(),
            bytes_applied: 0,
        }
    }
}

pub open spec fn with_keys(s: ServerView, keys: Map<Seq<u8>, Stored>) -> ServerView {
    ServerView { keys, ..s }
}

pub open spec fn with_role(s: ServerView, role: Seq<u8>) -> ServerView {
    ServerView { role, ..s }
}

/// The state with startup parameter `name` set to `value`.
pub open spec fn with_param(s: ServerView, name: Seq<u8>, value: Seq<u8>) -> ServerView {
    if name == ascii("dir"@) {
        ServerView { dir: value, ..s }
    } else if name == ascii("dbfilename"@) {
        ServerView { dbfilename: value, ..s }
    } else if name == ascii("port"@) {
        ServerView { port: value, ..s }
    } else {
        s
    }
}

/// The keyspace after loading snapshot entries in order, later ones winning.
pub open spec fn load_all(m: Map<Seq<u8>, Stored>, entries: Seq<crate::rdb::Loaded>) -> Map<Seq<u8>, Stored>
    decreases entries.len(),
{
    if entries.len() == 0 {
        m
    } else {
        let e = entries.last();
        load_all(m, entries.drop_last()).insert(e.0, (e.1, e.2))
    }
}

impl Config {
    /// Sets a startup parameter: `dir`, `dbfilename` or `port`; other names
    /// change nothing.
    pub fn insert(&mut self, name: &[u8], value: Vec<u8>)
        requires
            old(self).wf(),
        ensures
            final(self).wf(),
            final(self).state() == with_param(old(self).state(), name@, value@),
    {
        proof {
            reveal_strlit("dir");
            reveal_strlit("dbfilename");
            reveal_strlit("port");
        }
        if crate::assoc::bytes_eq(name, ascii_bytes("dir").as_slice()) {
            self.dir = value;
        } else if crate::assoc::bytes_eq(name, ascii_bytes("dbfilename").as_slice()) {
            self.dbfilename = value;
        } else if crate::assoc::bytes_eq(name, ascii_bytes("port").as_slice()) {
            self.port = value;
        }
    }

    /// Sets the role, as a replica does at startup.
    pub fn set_rcliinfo(&mut self, role: Vec<u8>)
        requires
            old(self).wf(),
        ensures
            final(self).wf(),
            final(self).state() == with_role(old(self).state(), role@),
    {
        self.rcliinfo.set_role(role);
    }

    /// The auxiliary fields read from snapshots, in order.
    pub open spec fn metadata_view(&self) -> Seq<(Seq<u8>, Resp)> {
        self.metadata@.map_values(|p: (Vec<u8>, Value)| (p.0@, p.1@))
    }

    /// Loads the snapshot file `file` at wall-clock millisecond `now`: its
    /// live entries go into the keyspace, its auxiliary fields are appended
    /// to the metadata. The result tells whether the whole file read, up to
    /// its end marker; otherwise what read before the fault stays loaded.
    pub fn load_rdb(&mut self, file: &[u8], now: u64) -> (r: bool)
        requires
            old(self).wf(),
        ensures
            final(self).wf(),
            final(self).state() == with_keys(
                old(self).state(),
                load_all(old(self).state().keys, crate::rdb::snapshot_of(file@, now).entries),
            ),
            final(self).metadata_view() == old(self).metadata_view() + crate::rdb::snapshot_of(file@, now).aux,
            r == crate::rdb::snapshot_of(file@, now).complete,
    {
        let contents = crate::rdb::parse_rdb(file, now);
        let crate::rdb::SnapshotContents { entries, aux, complete } = contents;
        let ghost av = aux@.map_values(|p: (Vec<u8>, Value)| (p.0@, p.1@));
        let ghost m0 = self.metadata_view();
        let ghost ev = entries@.map_values(|e: crate::rdb::RdbEntry| crate::rdb::entry_model(e));
        let ghost k0 = self.keyspace@;
        let mut i: usize = 0;
        while i < entries.len()
            invariant
                i <= entries.len(),
                self.wf(),
                ev == entries@.map_values(|e: crate::rdb::RdbEntry| crate::rdb::entry_model(e)),
                self.state() == with_keys(old(self).state(), load_all(k0, ev.subrange(0, i as int))),
                self.metadata_view() == m0,
            decreases entries.len() - i,
        {
            let e = &entries[i];
            let v = e.1.clone();
            self.keyspace.set(copy_bytes(e.0.as_slice()), v, e.2);
            proof {
                assert(ev.subrange(0, i + 1).drop_last() =~= ev.subrange(0, i as int));
            }
            i = i + 1;
        }
        proof {
            assert(ev.subrange(0, i as int) =~= ev);
        }
        let mut j: usize = 0;
        while j < aux.len()
            invariant
                j <= aux.len(),
                self.wf(),
                self.state() == with_keys(old(self).state(), load_all(k0, ev)),
                av == aux@.map_values(|p: (Vec<u8>, Value)| (p.0@, p.1@)),
                self.metadata_view() == m0 + av.subrange(0, j as int),
            decreases aux.len() - j,
        {
            let k = copy_bytes(aux[j].0.as_slice());
            let v = aux[j].1.clone();
            let ghost md0 = self.metadata@;
            let ghost kv = (k@, v@);
            self.metadata.push((k, v));
            proof {
                let mv0 = md0.map_values(|p: (Vec<u8>, Value)| (p.0@, p.1@));
                assert(mv0 == m0 + av.subrange(0, j as int));
                assert(av[j as int] == (aux@[j as int].0@, aux@[j as int].1@));
                assert forall|x: int| 0 <= x < md0.len() implies self.metadata_view()[x] == mv0[x] by {
                    assert(self.metadata@[x] == md0[x]);
                }
                assert((self.metadata@[md0.len() as int].0@, self.metadata@[md0.len() as int].1@) == kv);
                assert(self.metadata_view()[md0.len() as int] == av[j as int]);
                assert(self.metadata_view().len() == m0.len() + j + 1);
                assert forall|x: int| 0 <= x < m0.len() + j + 1 implies self.metadata_view()[x] == (m0 + av.subrange(0, j + 1))[x] by {
                    if x < md0.len() {
                        assert(mv0[x] == (m0 + av.subrange(0, j as int))[x]);
                    }
                }
                assert(self.metadata_view() =~= m0 + av.subrange(0, j + 1));
            }
            j = j + 1;
        }
        proof {
            assert(av.subrange(0, j as int) =~= av);
        }
        complete
    }
}

impl Config {
    /// GET `key` at `now`.
    pub fn get(&mut self, key: &[u8], now: u64) -> (r: Value)
        requires
            old(self).wf(),
        ensures
            final(self).wf(),
            r@ == get_reply(old(self).state().keys, key@, now),
            final(self).state() == with_keys(old(self).state(), after_read(old(self).state().keys, key@, now)),
    {
        match self.keyspace.get(key, now) {
            Some(Value::Integer(n)) => {
                let mut b: Vec<u8> = Vec::new();
                push_int(&mut b, n);
                proof {
                    assert(b@ =~= int_text(n as int));
                }
                Value::BulkString(Some(b))
            },
            Some(Value::BulkString(Some(b))) => Value::BulkString(Some(b)),
            _ => Value::BulkString(None),
        }
    }

    /// Stores `value` under `key` with no expiry.
    pub fn set(&mut self, key: Vec<u8>, value: Value) -> (r: Value)
        requires
            old(self).wf(),
        ensures
            final(self).wf(),
            r@ == simple("OK"@),
            final(self).state() == with_keys(old(self).state(), old(self).state().keys.insert(key@, (value@, None))),
    {
        proof {
            reveal_strlit("OK");
        }
        self.keyspace.set(key, value, None);
        simple_value("OK")
    }

    /// Sets the expiry instant of `key`, when present.
    pub fn set_expriations(&mut self, key: &[u8], at: u64)
        requires
            old(self).wf(),
        ensures
            final(self).wf(),
            final(self).state() == with_keys(
                old(self).state(),
                if old(self).state().keys.contains_key(key@) {
                    old(self).state().keys.insert(key@, (old(self).state().keys[key@].0, Some(at)))
                } else {
                    old(self).state().keys
                },
            ),
    {
        self.keyspace.set_expiry(key, Some(at));
    }

    /// The value of startup parameter `key`, or `Unknown`.
    pub fn get_config(&self, key: &[u8]) -> (r: Vec<u8>)
        ensures
            r@ == (match config_reply(self.state(), key@) {
                Resp::Arr(items) => items[1]->Bulk_0->0,
                _ => ascii("Unknown"@),
            }),
    {
        proof {
            reveal_strlit("Unknown");
        }
        match self.config_value_of(key) {
            Some(v) => v,
            None => ascii_bytes("Unknown"),
        }
    }

    /// One field of INFO replication.
    pub fn get_key_info_of_replication(&self, name: &[u8]) -> (r: Value)
        ensures
            r@ == crate::info::param_of(self.state().role, self.state().replid,
                self.state().replicas.len() as u64, self.state().offset, name@),
    {
        proof {
            self.slaves.lemma_views();
        }
        let n = self.slaves.replica_count() as u64;
        self.rcliinfo.get_param(name, n, self.slaves.master_offset())
    }

    /// Records the listening address a replica announced from `peer`.
    pub fn new_slave_come(&mut self, peer: Vec<u8>, listen_addr: Vec<u8>)
        requires
            old(self).wf(),
        ensures
            final(self).wf(),
            final(self).state() == (ServerView {
                handshakes: old(self).state().handshakes.insert(peer@, listen_addr@),
                ..old(self).state()
            }),
    {
        self.slaves.shake_hand_addr_info(peer, listen_addr);
    }

    /// Registers the replica connected from `peer` after its PSYNC; returns
    /// its index.
    pub fn add_slave_resphandler(&mut self, peer: &[u8]) -> (r: usize)
        requires
            old(self).wf(),
        ensures
            final(self).wf(),
            r == old(self).state().replicas.len(),
            final(self).state().replicas.len() == old(self).state().replicas.len() + 1,
            final(self).state().acks == old(self).state().acks.push(0),
            final(self).state().keys == old(self).state().keys,
            final(self).state().log == old(self).state().log,
    {
        proof {
            old(self).slaves.lemma_views();
        }
        self.slaves.add_new_slave_handler(peer)
    }
}

/// What a blocked read does after a poll that found `found`, `elapsed`
/// milliseconds into a block of `block_ms` (0: no limit): `Some` reply ends
/// the wait, `None` polls again.
pub fn block_read_step(found: Vec<Value>, elapsed: u64, block_ms: u64) -> (r: Option<Value>)
    ensures
        found.len() > 0 ==> (r matches Some(v) && v@ == Resp::Arr(models(found@))),
        found.len() == 0 && block_ms != 0 && elapsed >= block_ms ==> (r matches Some(v) && v@ == Resp::Bulk(None)),
        found.len() == 0 && (block_ms == 0 || elapsed < block_ms) ==> r is None,
{
    if found.len() > 0 {
        Some(Value::Array(found))
    } else if block_ms != 0 && elapsed >= block_ms {
        Some(Value::BulkString(None))
    } else {
        None
    }
}

/// What WAIT does after a poll that counted `count` caught-up replicas,
/// `elapsed` milliseconds into `timeout_ms`: it answers the count once it
/// reaches `wanted` or the time is up, and polls again otherwise.
pub fn wait_step(count: u64, wanted: u64, elapsed: u64, timeout_ms: u64) -> (r: Option<Value>)
    ensures
        (count >= wanted || elapsed >= timeout_ms) ==> (r matches Some(v) && v@ == Resp::Int(
            crate::info::clamp_i64(count) as int,
        )),
        !(count >= wanted || elapsed >= timeout_ms) ==> r is None,
{
    if count >= wanted || elapsed >= timeout_ms {
        Some(Value::Integer(if count <= 9223372036854775807u64 { count as i64 } else { i64::MAX }))
    } else {
        None
    }
}

} // verus!
