//! The commands, each as a step on the server state with its meaning stated
//! over [`ServerView`].
use vstd::prelude::*;
use crate::decimal::{int_text, nat_text, parse_int_text, push_int, push_nat};
use crate::entry_id::{EntryId, parse_u64_spec, parse_u64, bound_of, parse_bound, id_text, format_id,
    is_single};
use crate::glob::{key_matches, has_wildcard, contains_wildcard};
use crate::info::info_text;
use crate::keyspace::{live, current, listed};
use crate::resp::{Value, Resp, model, models, lemma_models, copy_bytes, push_bytes};
use crate::server::{ServerView, Verdict, Outcome, Config, cmd_is, is_command, simple, error, arity,
    stored_of, set_options, get_reply, after_read, incr_effect, one_or_zero, keys_reply_ok, bulk_among,
    config_reply, pairs_of, arg_views, request_view, simple_value, error_value, arity_value};
use crate::stream::{Entry, XaddError, xadd_outcome, xadd_error_text, last_id, entries_of, range_replies, read_replies, fields_view};
use crate::text::{ascii, ascii_bytes};

verus! {

pub open spec fn unchanged_reply(pre: ServerView, out: Verdict, post: ServerView, r: Resp) -> bool {
    out == Verdict::Reply(r) && post == pre
}

pub open spec fn set_post(pre: ServerView, a: Seq<Seq<u8>>, now: u64, out: Verdict, post: ServerView) -> bool {
    if a.len() < 2 {
        unchanged_reply(pre, out, post, arity("SET"@))
    } else {
        match set_options(a.subrange(2, a.len() as int), now, None) {
            Err(e) => unchanged_reply(pre, out, post, e),
            Ok(exp) => out == Verdict::Reply(simple("OK"@)) && post == ServerView {
                keys: pre.keys.insert(a[0], (stored_of(a[1]), exp)),
                ..pre
            },
        }
    }
}

pub open spec fn get_post(pre: ServerView, a: Seq<Seq<u8>>, now: u64, out: Verdict, post: ServerView) -> bool {
    if a.len() != 1 {
        unchanged_reply(pre, out, post, arity("GET"@))
    } else {
        out == Verdict::Reply(get_reply(pre.keys, a[0], now)) && post == ServerView {
            keys: after_read(pre.keys, a[0], now),
            ..pre
        }
    }
}

pub open spec fn del_post(pre: ServerView, a: Seq<Seq<u8>>, now: u64, out: Verdict, post: ServerView) -> bool {
    if a.len() != 1 {
        unchanged_reply(pre, out, post, arity("DEL"@))
    } else {
        out == Verdict::Reply(one_or_zero(current(pre.keys, a[0], now) is Some)) && post == ServerView {
            keys: pre.keys.remove(a[0]),
            ..pre
        }
    }
}

pub open spec fn exists_post(pre: ServerView, a: Seq<Seq<u8>>, now: u64, out: Verdict, post: ServerView) -> bool {
    if a.len() != 1 {
        unchanged_reply(pre, out, post, arity("EXISTS"@))
    } else {
        unchanged_reply(pre, out, post, one_or_zero(current(pre.keys, a[0], now) is Some))
    }
}

pub open spec fn incr_post(pre: ServerView, a: Seq<Seq<u8>>, delta: int, cmd: Seq<char>, now: u64, out: Verdict, post: ServerView) -> bool {
    if a.len() != 1 {
        unchanged_reply(pre, out, post, arity(cmd))
    } else {
        let (res, keys) = incr_effect(pre.keys, a[0], delta, now);
        post == ServerView { keys, ..pre } && out == Verdict::Reply(
            match res {
                Some(n) => Resp::Int(n),
                None => error("ERR value is not an integer or out of range"@),
            },
        )
    }
}

pub open spec fn type_post(pre: ServerView, a: Seq<Seq<u8>>, now: u64, out: Verdict, post: ServerView) -> bool {
    if a.len() != 1 {
        unchanged_reply(pre, out, post, arity("TYPE"@))
    } else {
        unchanged_reply(
            pre,
            out,
            post,
            if current(pre.keys, a[0], now) is Some {
                simple("string"@)
            } else if pre.streams.contains_key(a[0]) {
                simple("stream"@)
            } else {
                simple("none"@)
            },
        )
    }
}

pub open spec fn keys_post(pre: ServerView, a: Seq<Seq<u8>>, now: u64, out: Verdict, post: ServerView) -> bool {
    if a.len() != 1 {
        unchanged_reply(pre, out, post, arity("KEYS"@))
    } else if has_wildcard(a[0]) {
        post == pre && (out matches Verdict::Reply(r) && keys_reply_ok(pre.keys, a[0], now, r))
    } else {
        unchanged_reply(
            pre,
            out,
            post,
            if current(pre.keys, a[0], now) is Some {
                Resp::Bulk(Some(a[0]))
            } else {
                Resp::Arr(Seq::empty())
            },
        )
    }
}

pub open spec fn config_post(pre: ServerView, a: Seq<Seq<u8>>, out: Verdict, post: ServerView) -> bool {
    if a.len() == 0 {
        unchanged_reply(pre, out, post, arity("CONFIG"@))
    } else if cmd_is(a[0], "get"@) {
        if a.len() == 2 {
            unchanged_reply(pre, out, post, config_reply(pre, a[1]))
        } else {
            unchanged_reply(pre, out, post, arity("CONFIG GET"@))
        }
    } else {
        unchanged_reply(pre, out, post, error("Unknown CONFIG command"@))
    }
}

pub open spec fn info_post(pre: ServerView, a: Seq<Seq<u8>>, out: Verdict, post: ServerView) -> bool {
    if a.len() == 0 {
        unchanged_reply(pre, out, post, arity("INFO"@))
    } else if cmd_is(a[0], "replication"@) {
        unchanged_reply(
            pre,
            out,
            post,
            Resp::Bulk(Some(info_text(pre.role, pre.replicas.len() as u64, pre.replid, pre.offset))),
        )
    } else {
        unchanged_reply(pre, out, post, error("Unknown INFO command"@))
    }
}

/// The address a replica announced: its IP, a colon, and the port it gave.
pub open spec fn listen_addr(peer_ip: Seq<u8>, port: Seq<u8>) -> Seq<u8> {
    peer_ip + seq![58u8] + port
}

pub open spec fn ack_reply(n: u64) -> Resp {
    Resp::Arr(
        seq![
            Resp::Bulk(Some(ascii("REPLCONF"@))),
            Resp::Bulk(Some(ascii("ACK"@))),
            Resp::Bulk(Some(nat_text(n as nat))),
        ],
    )
}

pub open spec fn replconf_post(
    pre: ServerView,
    a: Seq<Seq<u8>>,
    peer: Seq<u8>,
    peer_ip: Seq<u8>,
    out: Verdict,
    post: ServerView,
) -> bool {
    if a.len() == 0 {
        unchanged_reply(pre, out, post, arity("REPLCONF"@))
    } else if cmd_is(a[0], "listening-port"@) {
        if a.len() == 2 {
            out == Verdict::Reply(simple("OK"@)) && post == ServerView {
                handshakes: pre.handshakes.insert(peer, listen_addr(peer_ip, a[1])),
                ..pre
            }
        } else {
            unchanged_reply(pre, out, post, arity("REPLCONF"@))
        }
    } else if cmd_is(a[0], "capa"@) {
        unchanged_reply(pre, out, post, if a.len() == 2 { simple("OK"@) } else { arity("REPLCONF"@) })
    } else if cmd_is(a[0], "getack"@) {
        unchanged_reply(
            pre,
            out,
            post,
            if a.len() == 2 { ack_reply(pre.bytes_applied) } else { arity("REPLCONF"@) },
        )
    } else {
        unchanged_reply(pre, out, post, error("Unknown REPLCONF command"@))
    }
}

pub open spec fn fullresync_text(replid: Seq<u8>, offset: u64) -> Seq<u8> {
    ascii("FULLRESYNC "@) + replid + seq![32u8] + nat_text(offset as nat)
}

pub open spec fn psync_post(pre: ServerView, a: Seq<Seq<u8>>, out: Verdict, post: ServerView) -> bool {
    if a.len() != 2 {
        unchanged_reply(pre, out, post, arity("PSYNC"@))
    } else if a[0] == seq![63u8] {
        unchanged_reply(pre, out, post, Resp::Simple(fullresync_text(pre.replid, pre.offset)))
    } else {
        unchanged_reply(pre, out, post, error("Unknown PSYNC command"@))
    }
}

pub open spec fn xadd_post(pre: ServerView, a: Seq<Seq<u8>>, now: u64, out: Verdict, post: ServerView) -> bool {
    if a.len() < 4 || a.len() % 2 == 1 {
        unchanged_reply(pre, out, post, arity("XADD"@))
    } else {
        match xadd_outcome(last_id(entries_of(pre.streams, a[0])), a[1], now) {
            Ok(id) => out == Verdict::Reply(Resp::Bulk(Some(id_text(id)))) && post == ServerView {
                streams: pre.streams.insert(
                    a[0],
                    entries_of(pre.streams, a[0]).push((id, pairs_of(a.subrange(2, a.len() as int)))),
                ),
                ..pre
            },
            Err(e) => unchanged_reply(pre, out, post, Resp::Error(xadd_error_text(e))),
        }
    }
}

pub open spec fn xrange_post(pre: ServerView, a: Seq<Seq<u8>>, out: Verdict, post: ServerView) -> bool {
    if a.len() != 3 {
        unchanged_reply(pre, out, post, arity("XRANGE"@))
    } else {
        match (bound_of(a[1], false), bound_of(a[2], true)) {
            (Some(lo), Some(hi)) => unchanged_reply(
                pre,
                out,
                post,
                Resp::Arr(range_replies(entries_of(pre.streams, a[0]), lo, hi)),
            ),
            _ => unchanged_reply(pre, out, post, Resp::Error(xadd_error_text(XaddError::InvalidId))),
        }
    }
}

/// The block time, if any, and the names-then-IDs part of XREAD's arguments.
pub open spec fn xread_split(a: Seq<Seq<u8>>) -> Option<(Option<u64>, Seq<Seq<u8>>)> {
    if a.len() >= 3 && cmd_is(a[0], "block"@) && cmd_is(a[2], "streams"@) {
        match parse_u64_spec(a[1]) {
            Some(ms) => Some((Some(ms), a.subrange(3, a.len() as int))),
            None => None,
        }
    } else if a.len() >= 1 && cmd_is(a[0], "streams"@) {
        Some((None, a.subrange(1, a.len() as int)))
    } else {
        None
    }
}

/// The ID a read starts after: `$` is the stream's last ID (`0-0` when empty).
pub open spec fn after_id(m: Map<Seq<u8>, Seq<Entry>>, name: Seq<u8>, t: Seq<u8>) -> Option<EntryId> {
    if t == seq![36u8] {
        Some(
            match last_id(entries_of(m, name)) {
                Some(l) => l,
                None => EntryId { ms: 0, seq: 0 },
            },
        )
    } else {
        bound_of(t, false)
    }
}

/// The `(name, after)` pairs of XREAD, when every ID reads.
pub open spec fn read_request(m: Map<Seq<u8>, Seq<Entry>>, rest: Seq<Seq<u8>>) -> Option<Seq<(Seq<u8>, EntryId)>> {
    let n = rest.len() / 2;
    if forall|i: int| 0 <= i < n ==> #[trigger] after_id(m, rest[i], rest[n + i]) is Some {
        Some(Seq::new(n as nat, |i: int| (rest[i], after_id(m, rest[i], rest[n + i])->0)))
    } else {
        None
    }
}

pub open spec fn xread_post(pre: ServerView, a: Seq<Seq<u8>>, out: Verdict, post: ServerView) -> bool {
    post == pre && match xread_split(a) {
        None => out == Verdict::Reply(error("ERR syntax error"@)),
        Some((block, rest)) => if rest.len() == 0 || rest.len() % 2 == 1 {
            out == Verdict::Reply(arity("XREAD"@))
        } else {
            match read_request(pre.streams, rest) {
                None => out == Verdict::Reply(Resp::Error(xadd_error_text(XaddError::InvalidId))),
                Some(req) => match block {
                    None => out == Verdict::Reply(Resp::Arr(read_replies(pre.streams, req))),
                    Some(ms) => out == Verdict::BlockRead(ms, req),
                },
            }
        },
    }
}

pub open spec fn wait_post(pre: ServerView, a: Seq<Seq<u8>>, out: Verdict, post: ServerView) -> bool {
    if a.len() != 2 {
        unchanged_reply(pre, out, post, arity("WAIT"@))
    } else {
        post == pre && match (parse_u64_spec(a[0]), parse_u64_spec(a[1])) {
            (Some(n), Some(t)) => out == Verdict::Wait(n, t),
            _ => out == Verdict::Reply(error("ERR value is not an integer or out of range"@)),
        }
    }
}

/// What command `c` with arguments `a` does: `out` is its outcome and `post`
/// the state after it, from state `pre`, at millisecond `now`, for a client
/// at address `peer` whose IP is `peer_ip`.
pub open spec fn command_post(
    pre: ServerView,
    c: Seq<u8>,
    a: Seq<Seq<u8>>,
    now: u64,
    peer: Seq<u8>,
    peer_ip: Seq<u8>,
    out: Verdict,
    post: ServerView,
) -> bool {
    if cmd_is(c, "ping"@) {
        unchanged_reply(pre, out, post, simple("PONG"@))
    } else if cmd_is(c, "echo"@) {
        unchanged_reply(pre, out, post, if a.len() == 1 { Resp::Bulk(Some(a[0])) } else { arity("ECHO"@) })
    } else if cmd_is(c, "set"@) {
        set_post(pre, a, now, out, post)
    } else if cmd_is(c, "get"@) {
        get_post(pre, a, now, out, post)
    } else if cmd_is(c, "del"@) {
        del_post(pre, a, now, out, post)
    } else if cmd_is(c, "exists"@) {
        exists_post(pre, a, now, out, post)
    } else if cmd_is(c, "incr"@) {
        incr_post(pre, a, 1, "INCR"@, now, out, post)
    } else if cmd_is(c, "decr"@) {
        incr_post(pre, a, -1, "DECR"@, now, out, post)
    } else if cmd_is(c, "type"@) {
        type_post(pre, a, now, out, post)
    } else if cmd_is(c, "keys"@) {
        keys_post(pre, a, now, out, post)
    } else if cmd_is(c, "config"@) {
        config_post(pre, a, out, post)
    } else if cmd_is(c, "info"@) {
        info_post(pre, a, out, post)
    } else if cmd_is(c, "replconf"@) {
        replconf_post(pre, a, peer, peer_ip, out, post)
    } else if cmd_is(c, "psync"@) {
        psync_post(pre, a, out, post)
    } else if cmd_is(c, "xadd"@) {
        xadd_post(pre, a, now, out, post)
    } else if cmd_is(c, "xrange"@) {
        xrange_post(pre, a, out, post)
    } else if cmd_is(c, "xread"@) {
        xread_post(pre, a, out, post)
    } else if cmd_is(c, "wait"@) {
        wait_post(pre, a, out, post)
    } else {
        unchanged_reply(pre, out, post, Resp::Error(ascii("Unknown command: "@) + c))
    }
}

/// The decimal text of `n` as a bulk string.
fn int_bulk(n: i64) -> (r: Value)
    ensures
        r@ == Resp::Bulk(Some(int_text(n as int))),
{
    let mut b: Vec<u8> = Vec::new();
    push_int(&mut b, n);
    proof {
        assert(b@ =~= int_text(n as int));
    }
    Value::BulkString(Some(b))
}

fn one_or_zero_value(b: bool) -> (r: Value)
    ensures
        r@ == one_or_zero(b),
{
    Value::Integer(if b { 1 } else { 0 })
}

impl Config {
    pub fn cmd_set(&mut self, a: &Vec<Vec<u8>>, now: u64) -> (r: Outcome)
        requires
            old(self).wf(),
        ensures
            final(self).wf(),
            set_post(old(self).state(), arg_views(a@), now, r@, final(self).state()),
    {
        proof {
            reveal_strlit("SET");
            reveal_strlit("px");
            reveal_strlit("ex");
            reveal_strlit("PX");
            reveal_strlit("EX");
            reveal_strlit("Invalid TTL value for PX");
            reveal_strlit("Invalid TTL value for EX");
            reveal_strlit("Unknown option: ");
            reveal_strlit("OK");
        }
        let ghost av = arg_views(a@);
        if a.len() < 2 {
            return Outcome::Reply(arity_value("SET"));
        }
        let mut exp: Option<u64> = None;
        let mut k: usize = 2;
        while k < a.len()
            invariant
                2 <= k <= a.len(),
                av == arg_views(a@),
                self.wf(),
                self.state() == old(self).state(),
                set_options(av.subrange(2, av.len() as int), now, None) == set_options(
                    av.subrange(k as int, av.len() as int),
                    now,
                    exp,
                ),
            decreases a.len() - k,
        {
            let ghost o = av.subrange(k as int, av.len() as int);
            proof {
                reveal_strlit("px");
                reveal_strlit("ex");
                reveal_strlit("PX");
                reveal_strlit("EX");
                reveal_strlit("Invalid TTL value for PX");
                reveal_strlit("Invalid TTL value for EX");
                reveal_strlit("Unknown option: ");
                assert(o[0] == a@[k as int]@);
                if k + 1 < a.len() {
                    assert(o[1] == a@[k + 1]@);
                    assert(o.subrange(2, o.len() as int) =~= av.subrange(k + 2, av.len() as int));
                }
            }
            if is_command(a[k].as_slice(), "px") {
                if k + 1 >= a.len() {
                    return Outcome::Reply(arity_value("PX"));
                }
                match parse_u64(a[k + 1].as_slice()) {
                    Some(ms) => {
                        if ms > u64::MAX - now {
                            return Outcome::Reply(error_value("Invalid TTL value for PX"));
                        }
                        exp = Some(now + ms);
                    },
                    None => {
                        return Outcome::Reply(error_value("Invalid TTL value for PX"));
                    },
                }
                k = k + 2;
            } else if is_command(a[k].as_slice(), "ex") {
                if k + 1 >= a.len() {
                    return Outcome::Reply(arity_value("EX"));
                }
                match parse_u64(a[k + 1].as_slice()) {
                    Some(sec) => {
                        let room = (u64::MAX - now) / 1000;
                        if sec > room {
                            proof {
                                assert(now + sec * 1000 > u64::MAX) by (nonlinear_arith)
                                    requires
                                        sec > room,
                                        room == (u64::MAX - now) / 1000,
                                        now <= u64::MAX,
                                ;
                            }
                            return Outcome::Reply(error_value("Invalid TTL value for EX"));
                        }
                        proof {
                            assert(sec * 1000 <= u64::MAX - now) by (nonlinear_arith)
                                requires
                                    sec <= room,
                                    room == (u64::MAX - now) / 1000,
                                    now <= u64::MAX,
                            ;
                        }
                        exp = Some(now + sec * 1000);
                    },
                    None => {
                        return Outcome::Reply(error_value("Invalid TTL value for EX"));
                    },
                }
                k = k + 2;
            } else {
                let mut m = ascii_bytes("Unknown option: ");
                push_bytes(&mut m, a[k].as_slice());
                return Outcome::Reply(Value::Error(m));
            }
        }
        let stored = match parse_int_text(a[1].as_slice()) {
            Some(i) => Value::Integer(i),
            None => Value::BulkString(Some(copy_bytes(a[1].as_slice()))),
        };
        proof {
            assert(av.subrange(k as int, av.len() as int).len() == 0);
            assert(av[0] == a@[0]@ && av[1] == a@[1]@);
        }
        self.keyspace.set(copy_bytes(a[0].as_slice()), stored, exp);
        Outcome::Reply(simple_value("OK"))
    }

    pub fn cmd_get(&mut self, a: &Vec<Vec<u8>>, now: u64) -> (r: Outcome)
        requires
            old(self).wf(),
        ensures
            final(self).wf(),
            get_post(old(self).state(), arg_views(a@), now, r@, final(self).state()),
    {
        proof {
            reveal_strlit("GET");
        }
        if a.len() != 1 {
            return Outcome::Reply(arity_value("GET"));
        }
        let v = self.keyspace.get(a[0].as_slice(), now);
        let reply = match v {
            Some(Value::Integer(n)) => int_bulk(n),
            Some(Value::BulkString(Some(b))) => Value::BulkString(Some(b)),
            _ => Value::BulkString(None),
        };
        Outcome::Reply(reply)
    }

    pub fn cmd_del(&mut self, a: &Vec<Vec<u8>>, now: u64) -> (r: Outcome)
        requires
            old(self).wf(),
        ensures
            final(self).wf(),
            del_post(old(self).state(), arg_views(a@), now, r@, final(self).state()),
    {
        proof {
            reveal_strlit("DEL");
        }
        if a.len() != 1 {
            return Outcome::Reply(arity_value("DEL"));
        }
        let b = self.keyspace.remove(a[0].as_slice(), now);
        Outcome::Reply(one_or_zero_value(b))
    }

    pub fn cmd_exists(&mut self, a: &Vec<Vec<u8>>, now: u64) -> (r: Outcome)
        requires
            old(self).wf(),
        ensures
            final(self).wf(),
            exists_post(old(self).state(), arg_views(a@), now, r@, final(self).state()),
    {
        proof {
            reveal_strlit("EXISTS");
        }
        if a.len() != 1 {
            return Outcome::Reply(arity_value("EXISTS"));
        }
        let b = self.keyspace.contains_live(a[0].as_slice(), now);
        Outcome::Reply(one_or_zero_value(b))
    }

    pub fn cmd_incr(&mut self, a: &Vec<Vec<u8>>, delta: i64, cmd: &str, now: u64) -> (r: Outcome)
        requires
            old(self).wf(),
            cmd.is_ascii(),
        ensures
            final(self).wf(),
            incr_post(old(self).state(), arg_views(a@), delta as int, cmd@, now, r@, final(self).state()),
    {
        proof {
            reveal_strlit("ERR value is not an integer or out of range");
        }
        if a.len() != 1 {
            return Outcome::Reply(arity_value(cmd));
        }
        match self.keyspace.incr_by(a[0].as_slice(), delta, now) {
            Ok(n) => Outcome::Reply(Value::Integer(n)),
            Err(_) => Outcome::Reply(error_value("ERR value is not an integer or out of range")),
        }
    }

    pub fn cmd_type(&mut self, a: &Vec<Vec<u8>>, now: u64) -> (r: Outcome)
        requires
            old(self).wf(),
        ensures
            final(self).wf(),
            type_post(old(self).state(), arg_views(a@), now, r@, final(self).state()),
    {
        proof {
            reveal_strlit("TYPE");
            reveal_strlit("string");
            reveal_strlit("stream");
            reveal_strlit("none");
        }
        if a.len() != 1 {
            return Outcome::Reply(arity_value("TYPE"));
        }
        if self.keyspace.contains_live(a[0].as_slice(), now) {
            Outcome::Reply(simple_value("string"))
        } else if self.streams.contains(a[0].as_slice()) {
            Outcome::Reply(simple_value("stream"))
        } else {
            Outcome::Reply(simple_value("none"))
        }
    }
}

impl Config {
    pub fn cmd_keys(&mut self, a: &Vec<Vec<u8>>, now: u64) -> (r: Outcome)
        requires
            old(self).wf(),
        ensures
            final(self).wf(),
            keys_post(old(self).state(), arg_views(a@), now, r@, final(self).state()),
    {
        proof {
            reveal_strlit("KEYS");
        }
        if a.len() != 1 {
            return Outcome::Reply(arity_value("KEYS"));
        }
        proof {
            assert(arg_views(a@)[0] == a@[0]@);
        }
        Outcome::Reply(self.get_keys(a[0].as_slice(), now))
    }

    /// The reply to KEYS `p` at `now`: with wildcards, an array of the
    /// matching live keys; without, the key itself when it is live, else an
    /// empty array.
    pub fn get_keys(&self, p: &[u8], now: u64) -> (r: Value)
        requires
            self.wf(),
        ensures
            has_wildcard(p@) ==> keys_reply_ok(self.state().keys, p@, now, r@),
            !has_wildcard(p@) ==> r@ == (if current(self.state().keys, p@, now) is Some {
                Resp::Bulk(Some(p@))
            } else {
                Resp::Arr(Seq::empty())
            }),
    {
        if contains_wildcard(p) {
            let keys = self.keyspace.keys_matching(p, now);
            let mut items: Vec<Value> = Vec::new();
            let mut i: usize = 0;
            while i < keys.len()
                invariant
                    i <= keys.len(),
                    items@.len() == i,
                    models(items@).len() == i,
                    forall|j: int| 0 <= j < i ==> #[trigger] models(items@)[j] == Resp::Bulk(Some(keys@[j]@)),
                decreases keys.len() - i,
            {
                let ghost i0 = items@;
                items.push(Value::BulkString(Some(copy_bytes(keys[i].as_slice()))));
                proof {
                    assert(items@.subrange(0, items@.len() - 1) =~= i0);
                    assert(models(items@) == models(i0).push(model(items@[i as int])));
                    assert(models(items@)[i as int] == Resp::Bulk(Some(keys@[i as int]@)));
                }
                i = i + 1;
            }
            proof {
                let m = models(items@);
                assert forall|x: int| 0 <= x < m.len() implies #[trigger] m[x] is Bulk && m[x]->Bulk_0 is Some by {
                    assert(m[x] == Resp::Bulk(Some(keys@[x]@)));
                }
                assert forall|x: int, y: int| 0 <= x < y < m.len() implies m[x] != m[y] by {
                    assert(keys@[x]@ != keys@[y]@);
                }
                assert forall|k: Seq<u8>|
                    #[trigger] bulk_among(m, k) <==> (current(self.keyspace@, k, now) is Some && key_matches(p@, k)) by {
                    assert(listed(keys@, k) <==> (current(self.keyspace@, k, now) is Some && key_matches(p@, k)));
                    if exists|x: int| 0 <= x < m.len() && m[x] == Resp::Bulk(Some(k)) {
                        let x = choose|x: int| 0 <= x < m.len() && m[x] == Resp::Bulk(Some(k));
                        assert(keys@[x]@ == k);
                    }
                    if listed(keys@, k) {
                        let x = choose|x: int| 0 <= x < keys@.len() && keys@[x]@ == k;
                        assert(m[x] == Resp::Bulk(Some(k)));
                    }
                }
                assert(forall|i: int| 0 <= i < m.len() ==> #[trigger] m[i] is Bulk && m[i]->Bulk_0 is Some);
                assert(forall|i: int, j: int| 0 <= i < j < m.len() ==> m[i] != m[j]);
                assert(keys_reply_ok(self.keyspace@, p@, now, Resp::Arr(m)));
            }
            Value::Array(items)
        } else {
            if self.keyspace.contains_live(p, now) {
                Value::BulkString(Some(copy_bytes(p)))
            } else {
                let items: Vec<Value> = Vec::new();
                proof {
                    assert(models(items@) =~= Seq::<Resp>::empty());
                }
                Value::Array(items)
            }
        }
    }

    /// The value of startup parameter `name`, if it is one.
    pub fn config_value_of(&self, name: &[u8]) -> (r: Option<Vec<u8>>)
        ensures
            match config_reply(self.state(), name@) {
                Resp::Arr(items) => r matches Some(v) && v@ == items[1]->Bulk_0->0,
                _ => r is None,
            },
    {
        proof {
            reveal_strlit("dir");
            reveal_strlit("dbfilename");
            reveal_strlit("port");
        }
        if crate::assoc::bytes_eq(name, ascii_bytes("dir").as_slice()) {
            Some(copy_bytes(self.dir.as_slice()))
        } else if crate::assoc::bytes_eq(name, ascii_bytes("dbfilename").as_slice()) {
            Some(copy_bytes(self.dbfilename.as_slice()))
        } else if crate::assoc::bytes_eq(name, ascii_bytes("port").as_slice()) {
            Some(copy_bytes(self.port.as_slice()))
        } else {
            None
        }
    }

    /// The reply to CONFIG GET `name`.
    pub fn config_get(&self, name: &[u8]) -> (r: Value)
        ensures
            r@ == config_reply(self.state(), name@),
    {
        let value = match self.config_value_of(name) {
            Some(v) => v,
            None => {
                return Value::BulkString(None);
            },
        };
        let mut items: Vec<Value> = Vec::new();
        items.push(Value::BulkString(Some(copy_bytes(name))));
        items.push(Value::BulkString(Some(value)));
        proof {
            lemma_models(items@);
            assert(models(items@) =~= seq![model(items@[0]), model(items@[1])]);
        }
        Value::Array(items)
    }

    pub fn cmd_config(&mut self, a: &Vec<Vec<u8>>) -> (r: Outcome)
        requires
            old(self).wf(),
        ensures
            final(self).wf(),
            config_post(old(self).state(), arg_views(a@), r@, final(self).state()),
    {
        proof {
            reveal_strlit("CONFIG");
            reveal_strlit("get");
            reveal_strlit("CONFIG GET");
            reveal_strlit("Unknown CONFIG command");
        }
        if a.len() == 0 {
            return Outcome::Reply(arity_value("CONFIG"));
        }
        if is_command(a[0].as_slice(), "get") {
            if a.len() == 2 {
                Outcome::Reply(self.config_get(a[1].as_slice()))
            } else {
                Outcome::Reply(arity_value("CONFIG GET"))
            }
        } else {
            Outcome::Reply(error_value("Unknown CONFIG command"))
        }
    }

    /// The INFO replication reply.
    pub fn get_info_replication(&self) -> (r: Value)
        ensures
            r@ == Resp::Bulk(Some(info_text(self.state().role, self.state().replicas.len() as u64,
                self.state().replid, self.state().offset))),
    {
        let n = self.slaves.replica_count();
        let off = self.slaves.master_offset();
        proof {
            self.slaves.lemma_views();
        }
        Value::BulkString(Some(self.rcliinfo.get_replication_info(n as u64, off)))
    }

    pub fn cmd_info(&mut self, a: &Vec<Vec<u8>>) -> (r: Outcome)
        requires
            old(self).wf(),
        ensures
            final(self).wf(),
            info_post(old(self).state(), arg_views(a@), r@, final(self).state()),
    {
        proof {
            reveal_strlit("INFO");
            reveal_strlit("replication");
            reveal_strlit("Unknown INFO command");
        }
        if a.len() == 0 {
            return Outcome::Reply(arity_value("INFO"));
        }
        if is_command(a[0].as_slice(), "replication") {
            Outcome::Reply(self.get_info_replication())
        } else {
            Outcome::Reply(error_value("Unknown INFO command"))
        }
    }

    pub fn cmd_replconf(&mut self, a: &Vec<Vec<u8>>, peer: &[u8], peer_ip: &[u8]) -> (r: Outcome)
        requires
            old(self).wf(),
        ensures
            final(self).wf(),
            replconf_post(old(self).state(), arg_views(a@), peer@, peer_ip@, r@, final(self).state()),
    {
        proof {
            reveal_strlit("REPLCONF");
            reveal_strlit("listening-port");
            reveal_strlit("capa");
            reveal_strlit("getack");
            reveal_strlit("OK");
            reveal_strlit("ACK");
            reveal_strlit("Unknown REPLCONF command");
        }
        if a.len() == 0 {
            return Outcome::Reply(arity_value("REPLCONF"));
        }
        if is_command(a[0].as_slice(), "listening-port") {
            if a.len() != 2 {
                return Outcome::Reply(arity_value("REPLCONF"));
            }
            let mut addr = copy_bytes(peer_ip);
            addr.push(58u8);
            push_bytes(&mut addr, a[1].as_slice());
            proof {
                assert(addr@ =~= listen_addr(peer_ip@, a@[1]@));
            }
            self.slaves.shake_hand_addr_info(copy_bytes(peer), addr);
            Outcome::Reply(simple_value("OK"))
        } else if is_command(a[0].as_slice(), "capa") {
            if a.len() != 2 {
                return Outcome::Reply(arity_value("REPLCONF"));
            }
            Outcome::Reply(simple_value("OK"))
        } else if is_command(a[0].as_slice(), "getack") {
            if a.len() != 2 {
                return Outcome::Reply(arity_value("REPLCONF"));
            }
            let mut n: Vec<u8> = Vec::new();
            push_nat(&mut n, self.bytes_applied);
            proof {
                assert(n@ =~= nat_text(self.bytes_applied as nat));
            }
            let mut items: Vec<Value> = Vec::new();
            items.push(Value::BulkString(Some(ascii_bytes("REPLCONF"))));
            items.push(Value::BulkString(Some(ascii_bytes("ACK"))));
            items.push(Value::BulkString(Some(n)));
            proof {
                lemma_models(items@);
                assert(models(items@) =~= seq![model(items@[0]), model(items@[1]), model(items@[2])]);
            }
            Outcome::Reply(Value::Array(items))
        } else {
            Outcome::Reply(error_value("Unknown REPLCONF command"))
        }
    }

    pub fn cmd_psync(&mut self, a: &Vec<Vec<u8>>) -> (r: Outcome)
        requires
            old(self).wf(),
        ensures
            final(self).wf(),
            psync_post(old(self).state(), arg_views(a@), r@, final(self).state()),
    {
        proof {
            reveal_strlit("PSYNC");
            reveal_strlit("FULLRESYNC ");
            reveal_strlit("Unknown PSYNC command");
        }
        if a.len() != 2 {
            return Outcome::Reply(arity_value("PSYNC"));
        }
        if is_single(a[0].as_slice(), 63u8) {
            let mut t = ascii_bytes("FULLRESYNC ");
            push_bytes(&mut t, self.rcliinfo.master_replid.as_slice());
            t.push(32u8);
            push_nat(&mut t, self.slaves.master_offset());
            proof {
                assert(t@ =~= fullresync_text(self.rcliinfo.master_replid@, self.slaves.offset()));
            }
            Outcome::Reply(Value::SimpleString(t))
        } else {
            Outcome::Reply(error_value("Unknown PSYNC command"))
        }
    }

    pub fn cmd_wait(&mut self, a: &Vec<Vec<u8>>) -> (r: Outcome)
        requires
            old(self).wf(),
        ensures
            final(self).wf(),
            wait_post(old(self).state(), arg_views(a@), r@, final(self).state()),
    {
        proof {
            reveal_strlit("WAIT");
            reveal_strlit("ERR value is not an integer or out of range");
        }
        if a.len() != 2 {
            return Outcome::Reply(arity_value("WAIT"));
        }
        match (parse_u64(a[0].as_slice()), parse_u64(a[1].as_slice())) {
            (Some(n), Some(t)) => Outcome::Wait(n, t),
            _ => Outcome::Reply(error_value("ERR value is not an integer or out of range")),
        }
    }
}

impl Config {
    pub fn cmd_xadd(&mut self, a: &Vec<Vec<u8>>, now: u64) -> (r: Outcome)
        requires
            old(self).wf(),
        ensures
            final(self).wf(),
            xadd_post(old(self).state(), arg_views(a@), now, r@, final(self).state()),
    {
        proof {
            reveal_strlit("XADD");
        }
        let ghost av = arg_views(a@);
        if a.len() < 4 || a.len() % 2 == 1 {
            return Outcome::Reply(arity_value("XADD"));
        }
        let mut fields: Vec<(Vec<u8>, Vec<u8>)> = Vec::new();
        let mut k: usize = 2;
        while k + 1 < a.len()
            invariant
                2 <= k <= a.len(),
                k % 2 == 0,
                a.len() % 2 == 0,
                av == arg_views(a@),
                fields_view(fields@) == pairs_of(av.subrange(2, k as int)),
            decreases a.len() - k,
        {
            let f = copy_bytes(a[k].as_slice());
            let v = copy_bytes(a[k + 1].as_slice());
            let ghost f0 = fields@;
            fields.push((f, v));
            proof {
                let next_pairs = pairs_of(av.subrange(2, k + 2));
                let prev_pairs = pairs_of(av.subrange(2, k as int));
                assert forall|j: int| 0 <= j < next_pairs.len() implies fields_view(fields@)[j] == next_pairs[j] by {
                    if j < prev_pairs.len() {
                        assert(fields@[j] == f0[j]);
                        assert(fields_view(f0)[j] == prev_pairs[j]);
                    }
                }
                assert(fields_view(fields@) =~= next_pairs);
            }
            k = k + 2;
        }
        proof {
            assert(av.subrange(2, k as int) =~= av.subrange(2, av.len() as int));
            assert(av[0] == a@[0]@ && av[1] == a@[1]@);
        }
        match self.streams.insert_stream_item(a[0].as_slice(), a[1].as_slice(), fields, now) {
            Ok(id) => Outcome::Reply(Value::BulkString(Some(format_id(id)))),
            Err(e) => Outcome::Reply(Value::Error(e.message())),
        }
    }

    pub fn cmd_xrange(&mut self, a: &Vec<Vec<u8>>) -> (r: Outcome)
        requires
            old(self).wf(),
        ensures
            final(self).wf(),
            xrange_post(old(self).state(), arg_views(a@), r@, final(self).state()),
    {
        proof {
            reveal_strlit("XRANGE");
        }
        if a.len() != 3 {
            return Outcome::Reply(arity_value("XRANGE"));
        }
        match self.streams.xrange(a[0].as_slice(), a[1].as_slice(), a[2].as_slice()) {
            Ok(v) => Outcome::Reply(Value::Array(v)),
            Err(e) => Outcome::Reply(Value::Error(e.message())),
        }
    }

    pub fn cmd_xread(&mut self, a: &Vec<Vec<u8>>) -> (r: Outcome)
        requires
            old(self).wf(),
        ensures
            final(self).wf(),
            xread_post(old(self).state(), arg_views(a@), r@, final(self).state()),
    {
        proof {
            reveal_strlit("XREAD");
            reveal_strlit("block");
            reveal_strlit("streams");
            reveal_strlit("ERR syntax error");
        }
        let ghost av = arg_views(a@);
        let split: (Option<u64>, usize) = if a.len() >= 3 && is_command(a[0].as_slice(), "block")
            && is_command(a[2].as_slice(), "streams") {
            match parse_u64(a[1].as_slice()) {
                Some(ms) => (Some(ms), 3),
                None => {
                    return Outcome::Reply(error_value("ERR syntax error"));
                },
            }
        } else if a.len() >= 1 && is_command(a[0].as_slice(), "streams") {
            (None, 1)
        } else {
            return Outcome::Reply(error_value("ERR syntax error"));
        };
        let block = split.0;
        let start = split.1;
        let ghost rest = av.subrange(start as int, av.len() as int);
        proof {
            assert(xread_split(av) == Some((block, rest)));
        }
        let len = a.len() - start;
        if len == 0 || len % 2 == 1 {
            return Outcome::Reply(arity_value("XREAD"));
        }
        let n = len / 2;
        let mut req: Vec<(Vec<u8>, EntryId)> = Vec::new();
        let mut i: usize = 0;
        while i < n
            invariant
                self.wf(),
                self.state() == old(self).state(),
                av == arg_views(a@),
                av.len() == a.len(),
                start + 2 * n == a.len(),
                req@.len() == i,
                rest == av.subrange(start as int, av.len() as int),
                xread_split(av) == Some((block, rest)),
                rest.len() == 2 * n,
                i <= n,
                request_view(req@) =~= Seq::new(i as nat, |j: int| (rest[j], after_id(self.streams@, rest[j], rest[n + j])->0)),
                forall|j: int| 0 <= j < i ==> #[trigger] after_id(self.streams@, rest[j], rest[n + j]) is Some,
            decreases n - i,
        {
            let name = &a[start + i];
            let t = &a[start + n + i];
            proof {
                assert(rest[i as int] == name@);
                assert(rest[n + i] == t@);
            }
            let after = if is_single(t.as_slice(), 36u8) {
                Some(self.streams.last_entry_id(name.as_slice()))
            } else {
                parse_bound(t.as_slice(), false)
            };
            proof {
                assert(after == after_id(self.streams@, rest[i as int], rest[n + i]));
            }
            match after {
                None => {
                    proof {
                        assert(!(after_id(self.streams@, rest[i as int], rest[n + i]) is Some));
                    }
                    return Outcome::Reply(Value::Error(XaddError::InvalidId.message()));
                },
                Some(id) => {
                    let ghost q0 = req@;
                    req.push((copy_bytes(name.as_slice()), id));
                    proof {
                        assert(request_view(req@) =~= Seq::new((i + 1) as nat, |j: int| (rest[j], after_id(self.streams@, rest[j], rest[n + j])->0))) by {
                            let target = Seq::new((i + 1) as nat, |j: int| (rest[j], after_id(self.streams@, rest[j], rest[n + j])->0));
                            let prev = Seq::new(i as nat, |j: int| (rest[j], after_id(self.streams@, rest[j], rest[n + j])->0));
                            assert forall|j: int| 0 <= j < i + 1 implies request_view(req@)[j] == target[j] by {
                                if j < i {
                                    assert(req@[j] == q0[j]);
                                    assert(request_view(q0)[j] == prev[j]);
                                } else {
                                    assert(req@[j] == (req@[j].0, id));
                                    assert(req@[j].0@ == name@);
                                }
                            }
                        }
                    }
                },
            }
            i = i + 1;
        }
        proof {
            assert(read_request(self.streams@, rest) == Some(request_view(req@)));
        }
        match block {
            None => Outcome::Reply(Value::Array(self.streams.xread(&req))),
            Some(ms) => Outcome::BlockRead(ms, req),
        }
    }
}

} // verus!
