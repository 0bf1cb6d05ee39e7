//! One client connection's commands: transactions and replication logging.
use vstd::prelude::*;
use crate::commands::command_post;
use crate::db::RedisDb;
use crate::info::clamp_i64;
use crate::replication::{is_write_frame, count_caught_up};
use crate::resp::{Value, Resp, ser, model, models, lemma_models, copy_bytes};
use crate::server::{Config, Outcome, Verdict, ServerView, arg_views, is_command, simple_value, error_value,
    cmd_is, simple, error};
use crate::stream::read_replies;

verus! {

/// The command name and arguments of a frame: an array of bulk strings.
pub open spec fn command_parts(v: Resp) -> Option<(Seq<u8>, Seq<Seq<u8>>)> {
    match v {
        Resp::Arr(items) => if items.len() > 0 && forall|i: int| 0 <= i < items.len() ==> (
        #[trigger] items[i] is Bulk && items[i]->Bulk_0 is Some) {
            Some((items[0]->Bulk_0->0, Seq::new((items.len() - 1) as nat, |i: int| items[i + 1]->Bulk_0->0)))
        } else {
            None
        },
        _ => None,
    }
}

/// The payload of a non-null bulk string.
pub fn unpack_bulk_str(value: &Value) -> (r: Option<Vec<u8>>)
    ensures
        match value@ {
            Resp::Bulk(Some(b)) => r matches Some(x) && x@ == b,
            _ => r is None,
        },
{
    match value {
        Value::BulkString(Some(b)) => Some(copy_bytes(b.as_slice())),
        _ => None,
    }
}

/// Splits a command frame into its name and arguments.
pub fn extract_command(value: &Value) -> (r: Option<(Vec<u8>, Vec<Vec<u8>>)>)
    ensures
        match command_parts(value@) {
            Some((c, a)) => r matches Some(p) && p.0@ == c && arg_views(p.1@) == a,
            None => r is None,
        },
{
    match value {
        Value::Array(items) => {
            proof {
                lemma_models(items@);
            }
            if items.len() == 0 {
                return None;
            }
            let name = match unpack_bulk_str(&items[0]) {
                Some(n) => n,
                None => {
                    return None;
                },
            };
            let mut args: Vec<Vec<u8>> = Vec::new();
            let mut i: usize = 1;
            while i < items.len()
                invariant
                    1 <= i <= items.len(),
                    items@.len() == models(items@).len(),
                    forall|j: int| 0 <= j < items.len() ==> #[trigger] models(items@)[j] == model(items@[j]),
                    forall|j: int| 0 <= j < i ==> (#[trigger] models(items@)[j] is Bulk && models(items@)[j]->Bulk_0 is Some),
                    forall|j: int| 0 <= j < i - 1 ==> #[trigger] args@[j]@ == models(items@)[j + 1]->Bulk_0->0,
                    args@.len() == i - 1,
                    *value == Value::Array(*items),
                    models(items@)[0] == Resp::Bulk(Some(name@)),
                decreases items.len() - i,
            {
                match unpack_bulk_str(&items[i]) {
                    Some(b) => {
                        let ghost a0 = args@;
                        args.push(b);
                        proof {
                            assert forall|j: int| 0 <= j < i implies #[trigger] args@[j]@ == models(items@)[j + 1]->Bulk_0->0 by {
                                if j < i - 1 {
                                    assert(args@[j] == a0[j]);
                                }
                            }
                        }
                    },
                    None => {
                        proof {
                            assert(!(models(items@)[i as int] is Bulk && models(items@)[i as int]->Bulk_0 is Some));
                        }
                        return None;
                    },
                }
                i = i + 1;
            }
            proof {
                let m = models(items@);
                assert(arg_views(args@) =~= Seq::new((m.len() - 1) as nat, |j: int| m[j + 1]->Bulk_0->0));
                assert(command_parts(value@) == Some((name@, arg_views(args@))));
            }
            Some((name, args))
        },
        _ => None,
    }
}

/// The frame that carries a command: an array of bulk strings.
pub open spec fn frame_of(c: Seq<u8>, a: Seq<Seq<u8>>) -> Resp {
    Resp::Arr(seq![Resp::Bulk(Some(c))] + Seq::new(a.len(), |i: int| Resp::Bulk(Some(a[i]))))
}

/// The state after a client command, with its frame logged for the replicas
/// when it is a write that did not fail.
pub open spec fn logged(s: ServerView, frame: Resp, out: Verdict) -> ServerView {
    if is_write_frame(frame) && (out matches Verdict::Reply(r) && !(r is Error)) {
        ServerView {
            log: s.log.push(frame),
            offset: if s.offset + ser(frame).len() <= u64::MAX {
                (s.offset + ser(frame).len()) as u64
            } else {
                u64::MAX
            },
            ..s
        }
    } else {
        s
    }
}

/// A client command and its logging.
pub open spec fn client_post(pre: ServerView, c: Seq<u8>, a: Seq<Seq<u8>>, now: u64, peer: Seq<u8>, ip: Seq<u8>, out: Verdict, post: ServerView) -> bool {
    exists|mid: ServerView| #[trigger] command_post(pre, c, a, now, peer, ip, out, mid) && post == logged(mid, frame_of(c, a), out)
}

/// The reply a command gives when it may not wait: a blocked read answers
/// at once (null when nothing is there), WAIT answers with the current count.
pub open spec fn immediate(out: Verdict, s: ServerView) -> Resp {
    match out {
        Verdict::Reply(r) => r,
        Verdict::BlockRead(_, req) => if read_replies(s.streams, req).len() == 0 {
            Resp::Bulk(None)
        } else {
            Resp::Arr(read_replies(s.streams, req))
        },
        Verdict::Wait(_, _) => Resp::Int(clamp_i64(count_caught_up(s.acks, s.offset) as u64) as int),
    }
}

/// Running the queued commands `q` in order from `pre` gives `replies` and
/// ends in `post`.
pub open spec fn runs(pre: ServerView, q: Seq<(Seq<u8>, Seq<Seq<u8>>)>, now: u64, peer: Seq<u8>, ip: Seq<u8>, replies: Seq<Resp>, post: ServerView) -> bool
    decreases q.len(),
{
    if q.len() == 0 {
        replies.len() == 0 && post == pre
    } else {
        replies.len() == q.len() && exists|mid: ServerView, out: Verdict, after: ServerView|
            runs(pre, q.drop_last(), now, peer, ip, replies.drop_last(), mid) && #[trigger] client_post(
                mid,
                q.last().0,
                q.last().1,
                now,
                peer,
                ip,
                out,
                after,
            ) && replies.last() == immediate(out, after) && post == after
    }
}

pub proof fn lemma_client_post(pre: ServerView, c: Seq<u8>, a: Seq<Seq<u8>>, now: u64, peer: Seq<u8>, ip: Seq<u8>, out: Verdict, mid: ServerView, post: ServerView)
    requires
        command_post(pre, c, a, now, peer, ip, out, mid),
        post == logged(mid, frame_of(c, a), out),
    ensures
        client_post(pre, c, a, now, peer, ip, out, post),
{
}

pub proof fn lemma_runs_step(
    start: ServerView,
    q: Seq<(Seq<u8>, Seq<Seq<u8>>)>,
    i: int,
    now: u64,
    peer: Seq<u8>,
    ip: Seq<u8>,
    replies: Seq<Resp>,
    mid: ServerView,
    out: Verdict,
    after: ServerView,
)
    requires
        0 <= i < q.len(),
        replies.len() == i,
        runs(start, q.subrange(0, i), now, peer, ip, replies, mid),
        client_post(mid, q[i].0, q[i].1, now, peer, ip, out, after),
    ensures
        runs(start, q.subrange(0, i + 1), now, peer, ip, replies.push(immediate(out, after)), after),
{
    let qs = q.subrange(0, i + 1);
    assert(qs.drop_last() =~= q.subrange(0, i));
    let rs = replies.push(immediate(out, after));
    assert(rs.drop_last() =~= replies);
    assert(qs.last() == q[i]);
    assert(rs.last() == immediate(out, after));
    assert(runs(start, qs.drop_last(), now, peer, ip, rs.drop_last(), mid));
    assert(client_post(mid, qs.last().0, qs.last().1, now, peer, ip, out, after));
}

/// A connection's transaction state.
pub struct Session {
    in_multi: bool,
    queue: Vec<(Vec<u8>, Vec<Vec<u8>>)>,
}

pub open spec fn queue_view(q: Seq<(Vec<u8>, Vec<Vec<u8>>)>) -> Seq<(Seq<u8>, Seq<Seq<u8>>)> {
    q.map_values(|p: (Vec<u8>, Vec<Vec<u8>>)| (p.0@, arg_views(p.1@)))
}

impl Session {
    /// Whether a transaction is open.
    pub closed spec fn multi(&self) -> bool {
        self.in_multi
    }

    /// The commands queued in the open transaction.
    pub closed spec fn queued(&self) -> Seq<(Seq<u8>, Seq<Seq<u8>>)> {
        queue_view(self.queue@)
    }

    pub fn new() -> (r: Session)
        ensures
            !r.multi(),
            r.queued().len() == 0,
    {
        let r = Session { in_multi: false, queue: Vec::new() };
        proof {
            assert(r.queued() =~= Seq::<(Seq<u8>, Seq<Seq<u8>>)>::empty());
        }
        r
    }
}

/// The frame that carries command `c` with arguments `a`.
pub fn build_frame(c: &[u8], a: &Vec<Vec<u8>>) -> (r: Value)
    ensures
        r@ == frame_of(c@, arg_views(a@)),
{
    let mut items: Vec<Value> = Vec::new();
    items.push(Value::BulkString(Some(copy_bytes(c))));
    proof {
        lemma_models(items@);
        assert(models(items@) =~= frame_of(c@, arg_views(a@.subrange(0, 0)))->Arr_0);
    }
    let mut i: usize = 0;
    while i < a.len()
        invariant
            i <= a.len(),
            items@.len() == i + 1,
            models(items@) =~= frame_of(c@, arg_views(a@.subrange(0, i as int)))->Arr_0,
        decreases a.len() - i,
    {
        let ghost i0 = items@;
        items.push(Value::BulkString(Some(copy_bytes(a[i].as_slice()))));
        proof {
            assert(items@.subrange(0, items@.len() - 1) =~= i0);
            assert(models(items@) == models(i0).push(model(items@[i + 1])));
            assert(models(items@) =~= frame_of(c@, arg_views(a@.subrange(0, i + 1)))->Arr_0);
        }
        i = i + 1;
    }
    proof {
        assert(a@.subrange(0, i as int) =~= a@);
    }
    Value::Array(items)
}

impl Config {
    /// Logs `frame` for the replicas when it is a write command whose reply
    /// is not an error.
    pub fn rcliinfo_track_cmd(&mut self, frame: Value, out: &Outcome)
        requires
            old(self).wf(),
        ensures
            final(self).wf(),
            final(self).state() == logged(old(self).state(), frame@, out@),
    {
        let ok = match out {
            Outcome::Reply(Value::Error(_)) => false,
            Outcome::Reply(_) => true,
            _ => false,
        };
        if ok {
            self.slaves.get_new_client_cmd(frame);
        }
    }

    /// The reply of a command that may not wait.
    pub fn immediate_reply(&self, out: Outcome) -> (r: Value)
        requires
            self.wf(),
        ensures
            r@ == immediate(out@, self.state()),
    {
        match out {
            Outcome::Reply(v) => v,
            Outcome::BlockRead(_, req) => {
                let v = self.streams.xread(&req);
                if v.len() == 0 {
                    proof {
                        lemma_models(v@);
                    }
                    Value::BulkString(None)
                } else {
                    proof {
                        lemma_models(v@);
                    }
                    Value::Array(v)
                }
            },
            Outcome::Wait(_, _) => {
                let n = self.slaves.wait();
                Value::Integer(if n <= 9223372036854775807u64 { n as i64 } else { i64::MAX })
            },
        }
    }
}

impl Session {
    /// Runs one command of this connection: MULTI, EXEC and DISCARD frame a
    /// transaction, other commands are queued inside one and run otherwise.
    /// Writes that succeed are logged for the replicas.
    pub fn handle(
        &mut self,
        db: &mut RedisDb,
        config: &mut Config,
        command: &[u8],
        args: &Vec<Vec<u8>>,
        now: u64,
        peer: &[u8],
        peer_ip: &[u8],
    ) -> (r: Outcome)
        requires
            old(config).wf(),
        ensures
            final(config).wf(),
            cmd_is(command@, "multi"@) ==> if old(self).multi() {
                r@ == Verdict::Reply(error("ERR MULTI calls can not be nested"@)) && final(self).multi()
                    && final(self).queued() == old(self).queued() && final(config).state() == old(config).state()
            } else {
                r@ == Verdict::Reply(simple("OK"@)) && final(self).multi() && final(self).queued().len() == 0
                    && final(config).state() == old(config).state()
            },
            !cmd_is(command@, "multi"@) && cmd_is(command@, "exec"@) ==> if old(self).multi() {
                !final(self).multi() && final(self).queued().len() == 0 && (r@ matches Verdict::Reply(Resp::Arr(replies))
                    && runs(old(config).state(), old(self).queued(), now, peer@, peer_ip@, replies, final(config).state()))
            } else {
                r@ == Verdict::Reply(error("ERR EXEC without MULTI"@)) && !final(self).multi()
                    && final(self).queued() == old(self).queued() && final(config).state() == old(config).state()
            },
            !cmd_is(command@, "multi"@) && !cmd_is(command@, "exec"@) && cmd_is(command@, "discard"@) ==> if old(self).multi() {
                r@ == Verdict::Reply(simple("OK"@)) && !final(self).multi() && final(self).queued().len() == 0
                    && final(config).state() == old(config).state()
            } else {
                r@ == Verdict::Reply(error("ERR DISCARD without MULTI"@)) && !final(self).multi()
                    && final(self).queued() == old(self).queued() && final(config).state() == old(config).state()
            },
            !cmd_is(command@, "multi"@) && !cmd_is(command@, "exec"@) && !cmd_is(command@, "discard"@) ==> if old(self).multi() {
                r@ == Verdict::Reply(simple("QUEUED"@)) && final(self).multi()
                    && final(self).queued() == old(self).queued().push((command@, arg_views(args@)))
                    && final(config).state() == old(config).state()
            } else {
                client_post(old(config).state(), command@, arg_views(args@), now, peer@, peer_ip@, r@, final(config).state())
                    && !final(self).multi() && final(self).queued() == old(self).queued()
            },
    {
        proof {
            reveal_strlit("multi");
            reveal_strlit("exec");
            reveal_strlit("discard");
            reveal_strlit("ERR MULTI calls can not be nested");
            reveal_strlit("ERR EXEC without MULTI");
            reveal_strlit("ERR DISCARD without MULTI");
            reveal_strlit("OK");
            reveal_strlit("QUEUED");
        }
        if is_command(command, "multi") {
            if self.in_multi {
                return Outcome::Reply(error_value("ERR MULTI calls can not be nested"));
            }
            self.in_multi = true;
            self.queue = Vec::new();
            proof {
                assert(self.queued() =~= Seq::<(Seq<u8>, Seq<Seq<u8>>)>::empty());
            }
            return Outcome::Reply(simple_value("OK"));
        }
        if is_command(command, "exec") {
            if !self.in_multi {
                return Outcome::Reply(error_value("ERR EXEC without MULTI"));
            }
            let mut queue: Vec<(Vec<u8>, Vec<Vec<u8>>)> = Vec::new();
            std::mem::swap(&mut queue, &mut self.queue);
            self.in_multi = false;
            proof {
                assert(self.queued() =~= Seq::<(Seq<u8>, Seq<Seq<u8>>)>::empty());
            }
            let ghost q = queue_view(queue@);
            let ghost start = config.state();
            let mut replies: Vec<Value> = Vec::new();
            let mut i: usize = 0;
            while i < queue.len()
                invariant
                    i <= queue.len(),
                    config.wf(),
                    q == queue_view(queue@),
                    replies@.len() == i,
                    runs(start, q.subrange(0, i as int), now, peer@, peer_ip@, models(replies@), config.state()),
                decreases queue.len() - i,
            {
                let ghost mid = config.state();
                let c = &queue[i].0;
                let a = &queue[i].1;
                let out = db.handle_command(c.as_slice(), a, config, now, peer, peer_ip);
                let ghost cmd_state = config.state();
                let ghost out_v = out@;
                let frame = build_frame(c.as_slice(), a);
                config.rcliinfo_track_cmd(frame, &out);
                let reply = config.immediate_reply(out);
                let ghost r0 = replies@;
                replies.push(reply);
                proof {
                    assert(q[i as int] == (c@, arg_views(a@)));
                    lemma_client_post(mid, c@, arg_views(a@), now, peer@, peer_ip@, out_v, cmd_state, config.state());
                    lemma_runs_step(start, q, i as int, now, peer@, peer_ip@, models(r0), mid, out_v, config.state());
                    assert(replies@.subrange(0, replies@.len() - 1) =~= r0);
                    assert(models(replies@) == models(r0).push(model(replies@[i as int])));
                }
                i = i + 1;
            }
            proof {
                assert(q.subrange(0, i as int) =~= q);
            }
            return Outcome::Reply(Value::Array(replies));
        }
        if is_command(command, "discard") {
            if !self.in_multi {
                return Outcome::Reply(error_value("ERR DISCARD without MULTI"));
            }
            self.in_multi = false;
            self.queue = Vec::new();
            proof {
                assert(self.queued() =~= Seq::<(Seq<u8>, Seq<Seq<u8>>)>::empty());
            }
            return Outcome::Reply(simple_value("OK"));
        }
        if self.in_multi {
            let ghost q0 = self.queued();
            let mut copied: Vec<Vec<u8>> = Vec::new();
            let mut i: usize = 0;
            while i < args.len()
                invariant
                    i <= args.len(),
                    copied@.len() == i,
                    arg_views(copied@) =~= arg_views(args@.subrange(0, i as int)),
                decreases args.len() - i,
            {
                let ghost c0 = copied@;
                copied.push(copy_bytes(args[i].as_slice()));
                proof {
                    assert forall|j: int| 0 <= j < i implies copied@[j] == c0[j] by {}
                    assert(copied@[i as int]@ == args@[i as int]@);
                    assert forall|j: int| 0 <= j < i + 1 implies arg_views(copied@)[j] == arg_views(args@.subrange(0, i + 1))[j] by {
                        if j < i {
                            assert(arg_views(c0)[j] == arg_views(args@.subrange(0, i as int))[j]);
                        }
                    }
                    assert(arg_views(copied@) =~= arg_views(args@.subrange(0, i + 1)));
                }
                i = i + 1;
            }
            proof {
                assert(args@.subrange(0, i as int) =~= args@);
            }
            self.queue.push((copy_bytes(command), copied));
            proof {
                assert(self.queued() =~= q0.push((command@, arg_views(args@))));
            }
            return Outcome::Reply(simple_value("QUEUED"));
        }
        let ghost pre = config.state();
        let out = db.handle_command(command, args, config, now, peer, peer_ip);
        let ghost mid = config.state();
        let frame = build_frame(command, args);
        config.rcliinfo_track_cmd(frame, &out);
        proof {
            assert(command_post(pre, command@, arg_views(args@), now, peer@, peer_ip@, out@, mid));
        }
        out
    }
}

/// Whether a reply to `command` starts a full resynchronisation: PSYNC
/// answered with a simple string (`FULLRESYNC ...`), after which the
/// connection carries the snapshot and then the replication stream.
pub fn starts_full_resync(command: &[u8], reply: &Value) -> (r: bool)
    ensures
        r == (cmd_is(command@, "psync"@) && reply@ is Simple),
{
    proof {
        reveal_strlit("psync");
    }
    is_command(command, "psync") && match reply {
        Value::SimpleString(_) => true,
        _ => false,
    }
}

} // verus!
