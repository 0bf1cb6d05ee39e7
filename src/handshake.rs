//! The replica side of replication: the handshake with the master and the
//! application of the commands it streams.
use vstd::prelude::*;
use crate::codec::looks_like_snapshot;
use crate::commands::command_post;
use crate::db::RedisDb;
use crate::resp::{Value, Resp, ser, model, models, copy_bytes};
use crate::server::{Config, Outcome, Verdict, ServerView, is_command, cmd_is};
use crate::session::{command_parts, extract_command};
use crate::text::{ascii, ascii_bytes};

verus! {

/// Where a replica stands in its handshake with the master.
#[derive(Clone, Copy, Debug, PartialEq, Eq, Structural)]
pub enum HandshakeStep {
    /// Sends PING, expects PONG.
    Ping,
    /// Sends `REPLCONF listening-port <port>`, expects OK.
    ListeningPort,
    /// Sends `REPLCONF capa psync2`, expects OK.
    Capa,
    /// Sends `PSYNC ? -1`, expects FULLRESYNC.
    Psync,
    /// Expects the snapshot.
    Snapshot,
    /// Applies the command stream.
    Streaming,
}

pub open spec fn bulks(parts: Seq<Seq<u8>>) -> Resp {
    Resp::Arr(Seq::new(parts.len(), |i: int| Resp::Bulk(Some(parts[i]))))
}

/// The frame a replica sends at each step, given its own port.
pub open spec fn request_of(step: HandshakeStep, port: Seq<u8>) -> Option<Resp> {
    match step {
        HandshakeStep::Ping => Some(bulks(seq![ascii("PING"@)])),
        HandshakeStep::ListeningPort => Some(bulks(seq![ascii("REPLCONF"@), ascii("listening-port"@), port])),
        HandshakeStep::Capa => Some(bulks(seq![ascii("REPLCONF"@), ascii("capa"@), ascii("psync2"@)])),
        HandshakeStep::Psync => Some(bulks(seq![ascii("PSYNC"@), ascii("?"@), ascii("-1"@)])),
        _ => None,
    }
}

/// The step after `step` once the master answered `reply`, if that is the
/// answer expected.
pub open spec fn step_after(step: HandshakeStep, reply: Resp) -> Option<HandshakeStep> {
    match step {
        HandshakeStep::Ping => if reply == Resp::Simple(ascii("PONG"@)) {
            Some(HandshakeStep::ListeningPort)
        } else {
            None
        },
        HandshakeStep::ListeningPort => if reply == Resp::Simple(ascii("OK"@)) {
            Some(HandshakeStep::Capa)
        } else {
            None
        },
        HandshakeStep::Capa => if reply == Resp::Simple(ascii("OK"@)) {
            Some(HandshakeStep::Psync)
        } else {
            None
        },
        HandshakeStep::Psync => if reply matches Resp::Simple(t) && t.len() >= 10 && t.subrange(0, 10)
            == ascii("FULLRESYNC"@) {
            Some(HandshakeStep::Snapshot)
        } else {
            None
        },
        HandshakeStep::Snapshot => if reply matches Resp::Rdb(b) && looks_like_snapshot(b) {
            Some(HandshakeStep::Streaming)
        } else {
            None
        },
        HandshakeStep::Streaming => None,
    }
}

fn bulk_array(parts: Vec<Vec<u8>>) -> (r: Value)
    ensures
        r@ == bulks(parts@.map_values(|p: Vec<u8>| p@)),
{
    let mut items: Vec<Value> = Vec::new();
    let mut i: usize = 0;
    while i < parts.len()
        invariant
            i <= parts.len(),
            items@.len() == i,
            models(items@) =~= Seq::new(i as nat, |j: int| Resp::Bulk(Some(parts@[j]@))),
        decreases parts.len() - i,
    {
        let ghost i0 = items@;
        items.push(Value::BulkString(Some(copy_bytes(parts[i].as_slice()))));
        proof {
            assert(items@.subrange(0, items@.len() - 1) =~= i0);
            assert(models(items@) == models(i0).push(model(items@[i as int])));
        }
        i = i + 1;
    }
    proof {
        let pv = parts@.map_values(|p: Vec<u8>| p@);
        assert(models(items@) =~= Seq::new(pv.len(), |j: int| Resp::Bulk(Some(pv[j]))));
    }
    Value::Array(items)
}

/// The frame to send at `step`, with this server's `port`.
pub fn handshake_request(step: HandshakeStep, port: &[u8]) -> (r: Option<Value>)
    ensures
        match request_of(step, port@) {
            Some(f) => r matches Some(v) && v@ == f,
            None => r is None,
        },
{
    proof {
        reveal_strlit("PING");
        reveal_strlit("REPLCONF");
        reveal_strlit("listening-port");
        reveal_strlit("capa");
        reveal_strlit("psync2");
        reveal_strlit("PSYNC");
        reveal_strlit("?");
        reveal_strlit("-1");
    }
    let mut parts: Vec<Vec<u8>> = Vec::new();
    match step {
        HandshakeStep::Ping => {
            parts.push(ascii_bytes("PING"));
        },
        HandshakeStep::ListeningPort => {
            parts.push(ascii_bytes("REPLCONF"));
            parts.push(ascii_bytes("listening-port"));
            parts.push(copy_bytes(port));
        },
        HandshakeStep::Capa => {
            parts.push(ascii_bytes("REPLCONF"));
            parts.push(ascii_bytes("capa"));
            parts.push(ascii_bytes("psync2"));
        },
        HandshakeStep::Psync => {
            parts.push(ascii_bytes("PSYNC"));
            parts.push(ascii_bytes("?"));
            parts.push(ascii_bytes("-1"));
        },
        _ => {
            return None;
        },
    }
    let ghost pv = parts@.map_values(|p: Vec<u8>| p@);
    let v = bulk_array(parts);
    proof {
        match step {
            HandshakeStep::Ping => {
                assert(pv =~= seq![ascii("PING"@)]);
            },
            HandshakeStep::ListeningPort => {
                assert(pv =~= seq![ascii("REPLCONF"@), ascii("listening-port"@), port@]);
            },
            HandshakeStep::Capa => {
                assert(pv =~= seq![ascii("REPLCONF"@), ascii("capa"@), ascii("psync2"@)]);
            },
            _ => {
                assert(pv =~= seq![ascii("PSYNC"@), ascii("?"@), ascii("-1"@)]);
            },
        }
    }
    Some(v)
}

fn is_simple_text(v: &Value, lit: &str) -> (r: bool)
    requires
        lit.is_ascii(),
    ensures
        r == (v@ == Resp::Simple(ascii(lit@))),
{
    match v {
        Value::SimpleString(t) => {
            let l = ascii_bytes(lit);
            crate::assoc::bytes_eq(t.as_slice(), l.as_slice())
        },
        _ => false,
    }
}

/// The step after `step` given the master's `reply`; `None` when the reply
/// is not the one expected, which ends the replica role.
pub fn handshake_advance(step: HandshakeStep, reply: &Value) -> (r: Option<HandshakeStep>)
    ensures
        r == step_after(step, reply@),
{
    proof {
        reveal_strlit("PONG");
        reveal_strlit("OK");
        reveal_strlit("FULLRESYNC");
    }
    match step {
        HandshakeStep::Ping => if is_simple_text(reply, "PONG") {
            Some(HandshakeStep::ListeningPort)
        } else {
            None
        },
        HandshakeStep::ListeningPort => if is_simple_text(reply, "OK") {
            Some(HandshakeStep::Capa)
        } else {
            None
        },
        HandshakeStep::Capa => if is_simple_text(reply, "OK") {
            Some(HandshakeStep::Psync)
        } else {
            None
        },
        HandshakeStep::Psync => match reply {
            Value::SimpleString(t) => {
                if t.len() >= 10 {
                    let l = ascii_bytes("FULLRESYNC");
                    if crate::assoc::bytes_eq(&t.as_slice()[0..10], l.as_slice()) {
                        Some(HandshakeStep::Snapshot)
                    } else {
                        None
                    }
                } else {
                    None
                }
            },
            _ => None,
        },
        HandshakeStep::Snapshot => match reply {
            Value::RdbFile(b) => {
                let n = b.len();
                if n >= 50 && b[0] == 82u8 && b[1] == 69u8 && b[2] == 68u8 && b[3] == 73u8 && b[4] == 83u8 {
                    proof {
                        assert(b@.subrange(0, 5) =~= crate::codec::snapshot_magic());
                    }
                    Some(HandshakeStep::Streaming)
                } else {
                    proof {
                        if looks_like_snapshot(b@) {
                            assert(b@.subrange(0, 5)[0] == b@[0] && b@.subrange(0, 5)[1] == b@[1]
                                && b@.subrange(0, 5)[2] == b@[2] && b@.subrange(0, 5)[3] == b@[3]
                                && b@.subrange(0, 5)[4] == b@[4]);
                        }
                    }
                    None
                }
            },
            _ => None,
        },
        HandshakeStep::Streaming => None,
    }
}

/// The bytes-applied counter after a frame of `n` bytes (saturating).
pub open spec fn add_applied(applied: u64, n: int) -> u64 {
    if applied + n <= u64::MAX {
        (applied + n) as u64
    } else {
        u64::MAX
    }
}

impl Config {
    /// Applies a command frame streamed by the master at `master` (IP
    /// `master_ip`) and counts its bytes as applied. Returns the reply to send
    /// back, which only `REPLCONF GETACK` has; a frame that is not a command
    /// is only counted.
    pub fn apply_replicated(
        &mut self,
        db: &mut RedisDb,
        frame: &Value,
        now: u64,
        master: &[u8],
        master_ip: &[u8],
    ) -> (r: Option<Value>)
        requires
            old(self).wf(),
        ensures
            final(self).wf(),
            final(self).state().bytes_applied == add_applied(old(self).state().bytes_applied, ser(frame@).len() as int),
            match command_parts(frame@) {
                None => final(self).state() == (ServerView { bytes_applied: final(self).state().bytes_applied, ..old(self).state() }),
                Some((c, a)) => exists|out: Verdict, mid: ServerView| #[trigger] command_post(old(self).state(), c, a, now, master@, master_ip@, out, mid)
                    && final(self).state() == (ServerView { bytes_applied: final(self).state().bytes_applied, ..mid })
                    && (r is Some <==> (cmd_is(c, "replconf"@) && a.len() > 0 && cmd_is(a[0], "getack"@)))
                    && (r matches Some(v) ==> out == Verdict::Reply(v@)),
            },
    {
        proof {
            reveal_strlit("replconf");
            reveal_strlit("getack");
        }
        let n = frame.serialize().len();
        let mut reply: Option<Value> = None;
        match extract_command(frame) {
            None => {},
            Some((c, a)) => {
                let ghost pre = self.state();
                let out = db.handle_command(c.as_slice(), &a, self, now, master, master_ip);
                let getack = is_command(c.as_slice(), "replconf") && a.len() > 0 && is_command(a[0].as_slice(), "getack");
                if getack {
                    reply = match out {
                        Outcome::Reply(v) => Some(v),
                        _ => None,
                    };
                    proof {
                        assert(reply is Some);
                    }
                }
            },
        }
        self.bytes_applied = if n as u64 <= u64::MAX - self.bytes_applied {
            self.bytes_applied + n as u64
        } else {
            u64::MAX
        };
        reply
    }
}

} // verus!
