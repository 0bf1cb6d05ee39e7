//! Replication bookkeeping on the master side: handshakes, registered
//! replicas, the log of write commands, offsets and the WAIT count.
use vstd::prelude::*;
use crate::assoc::{keys_distinct, to_map, lemma_to_map_contains, lemma_to_map_index,
    lemma_to_map_update, lemma_to_map_push, bytes_eq};
use crate::resp::{Value, Resp, model, models, lemma_models, ser, copy_bytes};
use crate::text::{ascii, ascii_bytes};

verus! {

/// The value of one hexadecimal digit.
pub open spec fn hex_val(c: u8) -> int {
    if 48 <= c <= 57 {
        c - 48
    } else if 97 <= c <= 102 {
        c - 97 + 10
    } else {
        c - 65 + 10
    }
}

pub open spec fn is_hex_digit(c: u8) -> bool {
    (48 <= c <= 57) || (97 <= c <= 102) || (65 <= c <= 70)
}

/// The bytes that a text of hexadecimal digit pairs denotes.
pub open spec fn hex_decoded(s: Seq<u8>) -> Seq<u8> {
    Seq::new(s.len() / 2, |i: int| (hex_val(s[2 * i]) * 16 + hex_val(s[2 * i + 1])) as u8)
}

/// Relies on `hex::decode`: for an even-length text of hexadecimal digits it
/// returns the bytes that each pair of digits denotes; otherwise an error.
#[verifier::external_body]
fn decode_hex(s: &[u8]) -> (r: Option<Vec<u8>>)
    ensures
        (s.len() % 2 == 0 && forall|i: int| 0 <= i < s.len() ==> is_hex_digit(#[trigger] s@[i]))
            <==> r is Some,
        r matches Some(b) ==> b@ == hex_decoded(s@),
{
    hex::decode(s).ok()
}

/// A session of a replica that completed its handshake.
pub struct ReplicaSession {
    /// The address the replica listens on.
    pub listen_addr: Vec<u8>,
    /// The offset it last reported.
    pub acked: u64,
    /// How many log entries it has been sent.
    pub cursor: usize,
}

/// The bytes of `REPLCONF GETACK *` on the wire.
pub open spec fn getack_model() -> Resp {
    Resp::Arr(
        seq![
            Resp::Bulk(Some(ascii("REPLCONF"@))),
            Resp::Bulk(Some(ascii("GETACK"@))),
            Resp::Bulk(Some(seq![42u8])),
        ],
    )
}

/// Whether a command frame is a write that replicas must see: an array whose
/// first item is the bulk string `SET` or `DEL`, in any case.
pub open spec fn is_write_frame(v: Resp) -> bool {
    v matches Resp::Arr(items) && items.len() > 0 && (items[0] matches Resp::Bulk(Some(name)) && (
    crate::text::lower(name) == crate::text::lower(ascii("set"@)) || crate::text::lower(name)
        == crate::text::lower(ascii("del"@))))
}

/// `a + n`, or the largest `u64` when that does not fit.
pub open spec fn sat_add(a: u64, n: int) -> u64 {
    if a + n <= u64::MAX {
        (a + n) as u64
    } else {
        u64::MAX
    }
}

/// How many of the acknowledged offsets equal `offset`.
pub open spec fn count_caught_up(acks: Seq<u64>, offset: u64) -> nat
    decreases acks.len(),
{
    if acks.len() == 0 {
        0
    } else {
        count_caught_up(acks.drop_last(), offset) + if acks.last() == offset {
            1nat
        } else {
            0nat
        }
    }
}

pub proof fn lemma_count_caught_up_bound(acks: Seq<u64>, offset: u64)
    ensures
        count_caught_up(acks, offset) <= acks.len(),
    decreases acks.len(),
{
    if acks.len() > 0 {
        lemma_count_caught_up_bound(acks.drop_last(), offset);
    }
}

/// The replica registry and command log of a master.
pub struct Slaves {
    handshakes: Vec<(Vec<u8>, Vec<u8>)>,
    replicas: Vec<ReplicaSession>,
    log: Vec<Value>,
    master_offset: u64,
    getack_outstanding: bool,
}

impl Slaves {
    /// Peer address to announced listening address, for handshakes seen so far.
    pub closed spec fn handshakes_view(&self) -> Map<Seq<u8>, Seq<u8>> {
        to_map(self.handshakes@.map_values(|p: (Vec<u8>, Vec<u8>)| (p.0@, p.1@)))
    }

    /// The registered replicas' listening addresses, in registration order.
    pub closed spec fn addrs(&self) -> Seq<Seq<u8>> {
        self.replicas@.map_values(|s: ReplicaSession| s.listen_addr@)
    }

    /// The replicas' acknowledged offsets.
    pub closed spec fn acks(&self) -> Seq<u64> {
        self.replicas@.map_values(|s: ReplicaSession| s.acked)
    }

    /// How many log entries each replica has been sent.
    pub closed spec fn cursors(&self) -> Seq<usize> {
        self.replicas@.map_values(|s: ReplicaSession| s.cursor)
    }

    /// The command log.
    pub closed spec fn log_view(&self) -> Seq<Resp> {
        models(self.log@)
    }

    /// The master's replication offset (saturating): the bytes of the write
    /// commands logged and of every `REPLCONF GETACK *` round but the latest.
    pub closed spec fn offset(&self) -> u64 {
        self.master_offset
    }

    /// Whether a GETACK round went out whose bytes the offset does not hold yet.
    pub closed spec fn getack_outstanding(&self) -> bool {
        self.getack_outstanding
    }

    pub closed spec fn wf(&self) -> bool {
        &&& keys_distinct(self.handshakes@.map_values(|p: (Vec<u8>, Vec<u8>)| (p.0@, p.1@)))
        &&& forall|i: int| 0 <= i < self.replicas.len() ==> #[trigger] self.replicas@[i].cursor
            <= self.log.len()
    }

    pub proof fn lemma_views(&self)
        ensures
            self.addrs().len() == self.acks().len(),
            self.cursors().len() == self.acks().len(),
    {
    }

    /// An empty registry at offset 0.
    pub fn new() -> (r: Slaves)
        ensures
            r.wf(),
            r.handshakes_view() == Map::<Seq<u8>, Seq<u8>>::empty(),
            r.addrs().len() == 0,
            r.log_view().len() == 0,
            r.offset() == 0,
    {
        let r = Slaves { handshakes: Vec::new(), replicas: Vec::new(), log: Vec::new(), master_offset: 0, getack_outstanding: false };
        proof {
            assert(r.handshakes@.map_values(|p: (Vec<u8>, Vec<u8>)| (p.0@, p.1@)) =~= Seq::<
                (Seq<u8>, Seq<u8>),
            >::empty());
            assert(r.log_view() =~= Seq::<Resp>::empty());
        }
        r
    }

    /// The number of registered replicas.
    pub fn replica_count(&self) -> (r: usize)
        ensures
            r == self.acks().len(),
    {
        self.replicas.len()
    }

    /// The master's replication offset.
    pub fn master_offset(&self) -> (r: u64)
        ensures
            r == self.offset(),
    {
        self.master_offset
    }

    /// Records that the peer at `in_addr` announced `listen_addr`.
    pub fn shake_hand_addr_info(&mut self, in_addr: Vec<u8>, listen_addr: Vec<u8>)
        requires
            old(self).wf(),
        ensures
            final(self).wf(),
            final(self).handshakes_view() == old(self).handshakes_view().insert(in_addr@, listen_addr@),
            final(self).addrs() == old(self).addrs(),
            final(self).acks() == old(self).acks(),
            final(self).cursors() == old(self).cursors(),
            final(self).log_view() == old(self).log_view(),
            final(self).offset() == old(self).offset(),
            final(self).getack_outstanding() == old(self).getack_outstanding(),
    {
        let ghost s = self.handshakes@.map_values(|p: (Vec<u8>, Vec<u8>)| (p.0@, p.1@));
        let ghost k = in_addr@;
        let ghost v = listen_addr@;
        match self.find_handshake(in_addr.as_slice()) {
            Some(i) => {
                proof {
                    lemma_to_map_index(s, i as int);
                }
                self.handshakes.set(i, (in_addr, listen_addr));
                proof {
                    lemma_to_map_update(s, i as int, v);
                    assert(self.handshakes@.map_values(|p: (Vec<u8>, Vec<u8>)| (p.0@, p.1@)) =~= s.update(
                        i as int,
                        (s[i as int].0, v),
                    ));
                }
            },
            None => {
                self.handshakes.push((in_addr, listen_addr));
                proof {
                    lemma_to_map_push(s, k, v);
                    assert(self.handshakes@.map_values(|p: (Vec<u8>, Vec<u8>)| (p.0@, p.1@)) =~= s.push((k, v)));
                }
            },
        }
    }

    fn find_handshake(&self, peer: &[u8]) -> (r: Option<usize>)
        requires
            self.wf(),
        ensures
            r is None ==> !self.handshakes_view().contains_key(peer@),
            r matches Some(i) ==> i < self.handshakes.len() && self.handshakes@[i as int].0@ == peer@
                && self.handshakes_view().contains_key(peer@)
                && self.handshakes_view()[peer@] == self.handshakes@[i as int].1@,
    {
        let ghost s = self.handshakes@.map_values(|p: (Vec<u8>, Vec<u8>)| (p.0@, p.1@));
        let mut i: usize = 0;
        while i < self.handshakes.len()
            invariant
                i <= self.handshakes.len(),
                s == self.handshakes@.map_values(|p: (Vec<u8>, Vec<u8>)| (p.0@, p.1@)),
                keys_distinct(s),
                forall|j: int| 0 <= j < i ==> s[j].0 != peer@,
            decreases self.handshakes.len() - i,
        {
            if bytes_eq(self.handshakes[i].0.as_slice(), peer) {
                proof {
                    lemma_to_map_index(s, i as int);
                }
                return Some(i);
            }
            i = i + 1;
        }
        proof {
            lemma_to_map_contains(s, peer@);
        }
        None
    }

    /// Registers the replica connected from `peer` after its PSYNC. It is
    /// known by the address it announced, or by `peer` when it announced none.
    /// It starts at offset 0 with the whole log still to be sent.
    pub fn add_new_slave_handler(&mut self, peer: &[u8]) -> (r: usize)
        requires
            old(self).wf(),
        ensures
            final(self).wf(),
            r == old(self).acks().len(),
            final(self).addrs() == old(self).addrs().push(
                if old(self).handshakes_view().contains_key(peer@) {
                    old(self).handshakes_view()[peer@]
                } else {
                    peer@
                },
            ),
            final(self).acks() == old(self).acks().push(0),
            final(self).cursors() == old(self).cursors().push(0),
            final(self).handshakes_view() == old(self).handshakes_view(),
            final(self).log_view() == old(self).log_view(),
            final(self).offset() == old(self).offset(),
            final(self).getack_outstanding() == old(self).getack_outstanding(),
    {
        let ghost s = self.handshakes@.map_values(|p: (Vec<u8>, Vec<u8>)| (p.0@, p.1@));
        let addr = match self.find_handshake(peer) {
            Some(i) => copy_bytes(self.handshakes[i].1.as_slice()),
            None => copy_bytes(peer),
        };
        let r = self.replicas.len();
        self.replicas.push(ReplicaSession { listen_addr: addr, acked: 0, cursor: 0 });
        proof {
            assert(self.addrs() =~= old(self).addrs().push(addr@));
            assert(self.acks() =~= old(self).acks().push(0));
            assert(self.cursors() =~= old(self).cursors().push(0));
        }
        r
    }

    /// Appends `cmd` to the log when it is a write, and grows the offset by
    /// its encoded length (saturating). Tells whether it was appended.
    pub fn get_new_client_cmd(&mut self, cmd: Value) -> (r: bool)
        requires
            old(self).wf(),
        ensures
            final(self).wf(),
            r == is_write_frame(cmd@),
            r ==> final(self).log_view() == old(self).log_view().push(cmd@),
            r ==> final(self).offset() == if old(self).offset() + ser(cmd@).len() <= u64::MAX {
                (old(self).offset() + ser(cmd@).len()) as u64
            } else {
                u64::MAX
            },
            !r ==> final(self).log_view() == old(self).log_view() && final(self).offset() == old(
                self,
            ).offset(),
            final(self).addrs() == old(self).addrs(),
            final(self).acks() == old(self).acks(),
            final(self).cursors() == old(self).cursors(),
            final(self).handshakes_view() == old(self).handshakes_view(),
            final(self).getack_outstanding() == old(self).getack_outstanding(),
    {
        if !is_write_command(&cmd) {
            return false;
        }
        let len = cmd.serialize().len();
        let ghost l0 = self.log@;
        self.log.push(cmd);
        proof {
            assert(self.log@.subrange(0, self.log@.len() - 1) =~= l0);
        }
        self.master_offset = if len as u64 <= u64::MAX - self.master_offset {
            self.master_offset + len as u64
        } else {
            u64::MAX
        };
        true
    }

    /// Hands out the log entries that replica `i` has not been sent yet and
    /// marks them sent.
    pub fn take_pending(&mut self, i: usize) -> (r: Vec<Value>)
        requires
            old(self).wf(),
            i < old(self).acks().len(),
        ensures
            final(self).wf(),
            models(r@) == old(self).log_view().subrange(old(self).cursors()[i as int] as int, old(self).log_view().len() as int),
            final(self).cursors() == old(self).cursors().update(i as int, old(self).log_view().len() as usize),
            final(self).addrs() == old(self).addrs(),
            final(self).acks() == old(self).acks(),
            final(self).log_view() == old(self).log_view(),
            final(self).offset() == old(self).offset(),
            final(self).getack_outstanding() == old(self).getack_outstanding(),
            final(self).handshakes_view() == old(self).handshakes_view(),
    {
        let start = self.replicas[i].cursor;
        let mut out: Vec<Value> = Vec::new();
        let mut k: usize = start;
        proof {
            lemma_models(self.log@);
            assert(self.replicas@[i as int].cursor <= self.log.len());
        }
        while k < self.log.len()
            invariant
                start <= k <= self.log.len(),
                self.log@.len() == models(self.log@).len(),
                forall|j: int| 0 <= j < self.log.len() ==> #[trigger] models(self.log@)[j] == model(self.log@[j]),
                models(out@) == models(self.log@).subrange(start as int, k as int),
            decreases self.log.len() - k,
        {
            let ghost o0 = out@;
            out.push(self.log[k].clone());
            proof {
                assert(out@.subrange(0, out@.len() - 1) =~= o0);
                assert(models(self.log@).subrange(start as int, k + 1) =~= models(self.log@).subrange(start as int, k as int).push(model(self.log@[k as int])));
            }
            k = k + 1;
        }
        let n = self.log.len();
        let addr = copy_bytes(self.replicas[i].listen_addr.as_slice());
        let acked = self.replicas[i].acked;
        self.replicas.set(i, ReplicaSession { listen_addr: addr, acked, cursor: n });
        proof {
            assert(self.addrs() =~= old(self).addrs());
            assert(self.acks() =~= old(self).acks());
            assert(self.cursors() =~= old(self).cursors().update(i as int, n));
        }
        out
    }

    /// Notes that a `REPLCONF GETACK *` round went out to the replicas. A
    /// replica answers GETACK with the offset it reached before applying it,
    /// so the bytes of a GETACK join the master's offset when the next round
    /// goes out: the offset then equals what an up-to-date replica reports.
    pub fn note_getack_sent(&mut self)
        requires
            old(self).wf(),
        ensures
            final(self).wf(),
            final(self).getack_outstanding(),
            final(self).offset() == if old(self).getack_outstanding() {
                sat_add(old(self).offset(), ser(getack_model()).len() as int)
            } else {
                old(self).offset()
            },
            final(self).addrs() == old(self).addrs(),
            final(self).acks() == old(self).acks(),
            final(self).cursors() == old(self).cursors(),
            final(self).log_view() == old(self).log_view(),
            final(self).handshakes_view() == old(self).handshakes_view(),
    {
        if self.getack_outstanding {
            let len = Slaves::getack_frame().serialize().len();
            self.master_offset = if len as u64 <= u64::MAX - self.master_offset {
                self.master_offset + len as u64
            } else {
                u64::MAX
            };
        }
        self.getack_outstanding = true;
    }

    /// The frames to send replica `i` in a fan-out round: the log entries it
    /// has not been sent, followed by `REPLCONF GETACK *`; nothing when it is
    /// up to date. The entries are marked sent.
    pub fn frames_for(&mut self, i: usize) -> (r: Vec<Value>)
        requires
            old(self).wf(),
            i < old(self).acks().len(),
        ensures
            final(self).wf(),
            ({
                let pending = old(self).log_view().subrange(
                    old(self).cursors()[i as int] as int,
                    old(self).log_view().len() as int,
                );
                models(r@) == if pending.len() == 0 {
                    pending
                } else {
                    pending.push(getack_model())
                }
            }),
            final(self).cursors() == old(self).cursors().update(i as int, old(self).log_view().len() as usize),
            final(self).addrs() == old(self).addrs(),
            final(self).acks() == old(self).acks(),
            final(self).log_view() == old(self).log_view(),
            final(self).offset() == old(self).offset(),
            final(self).getack_outstanding() == old(self).getack_outstanding(),
            final(self).handshakes_view() == old(self).handshakes_view(),
    {
        let mut frames = self.take_pending(i);
        if frames.len() > 0 {
            let ghost f0 = frames@;
            frames.push(Slaves::getack_frame());
            proof {
                assert(frames@.subrange(0, frames@.len() - 1) =~= f0);
            }
        }
        frames
    }

    /// Records the offset that replica `i` reported.
    pub fn record_ack(&mut self, i: usize, offset: u64)
        requires
            old(self).wf(),
            i < old(self).acks().len(),
        ensures
            final(self).wf(),
            final(self).acks() == old(self).acks().update(i as int, offset),
            final(self).addrs() == old(self).addrs(),
            final(self).cursors() == old(self).cursors(),
            final(self).log_view() == old(self).log_view(),
            final(self).offset() == old(self).offset(),
            final(self).getack_outstanding() == old(self).getack_outstanding(),
            final(self).handshakes_view() == old(self).handshakes_view(),
    {
        let addr = copy_bytes(self.replicas[i].listen_addr.as_slice());
        let cursor = self.replicas[i].cursor;
        self.replicas.set(i, ReplicaSession { listen_addr: addr, acked: offset, cursor });
        proof {
            assert(self.addrs() =~= old(self).addrs());
            assert(self.acks() =~= old(self).acks().update(i as int, offset));
            assert(self.cursors() =~= old(self).cursors());
        }
    }

    /// Drops replica `i`, as after a failed write to it.
    pub fn remove_replica(&mut self, i: usize)
        requires
            old(self).wf(),
            i < old(self).acks().len(),
        ensures
            final(self).wf(),
            final(self).acks() == old(self).acks().remove(i as int),
            final(self).addrs() == old(self).addrs().remove(i as int),
            final(self).cursors() == old(self).cursors().remove(i as int),
            final(self).log_view() == old(self).log_view(),
            final(self).offset() == old(self).offset(),
            final(self).getack_outstanding() == old(self).getack_outstanding(),
            final(self).handshakes_view() == old(self).handshakes_view(),
    {
        self.replicas.remove(i);
        proof {
            assert(self.addrs() =~= old(self).addrs().remove(i as int));
            assert(self.acks() =~= old(self).acks().remove(i as int));
            assert(self.cursors() =~= old(self).cursors().remove(i as int));
        }
    }

    /// How many replicas have acknowledged the master's offset.
    pub fn wait(&self) -> (r: u64)
        ensures
            r == count_caught_up(self.acks(), self.offset()),
            r <= self.acks().len(),
    {
        let mut n: u64 = 0;
        let mut i: usize = 0;
        while i < self.replicas.len()
            invariant
                i <= self.replicas.len(),
                n == count_caught_up(self.acks().subrange(0, i as int), self.master_offset),
                n <= i,
            decreases self.replicas.len() - i,
        {
            proof {
                assert(self.acks().subrange(0, i + 1).drop_last() =~= self.acks().subrange(0, i as int));
            }
            if self.replicas[i].acked == self.master_offset {
                n = n + 1;
            }
            i = i + 1;
        }
        proof {
            assert(self.acks().subrange(0, i as int) =~= self.acks());
            lemma_count_caught_up_bound(self.acks(), self.master_offset);
        }
        n
    }

    /// The frame `REPLCONF GETACK *` that asks a replica for its offset.
    pub fn getack_frame() -> (r: Value)
        ensures
            r@ == getack_model(),
    {
        proof {
            reveal_strlit("REPLCONF");
            reveal_strlit("GETACK");
        }
        let mut items: Vec<Value> = Vec::new();
        items.push(Value::BulkString(Some(ascii_bytes("REPLCONF"))));
        items.push(Value::BulkString(Some(ascii_bytes("GETACK"))));
        let mut star: Vec<u8> = Vec::new();
        star.push(42u8);
        proof {
            assert(star@ =~= seq![42u8]);
        }
        items.push(Value::BulkString(Some(star)));
        proof {
            lemma_models(items@);
            assert(models(items@) =~= seq![
                Resp::Bulk(Some(ascii("REPLCONF"@))),
                Resp::Bulk(Some(ascii("GETACK"@))),
                Resp::Bulk(Some(seq![42u8])),
            ]);
        }
        Value::Array(items)
    }

    /// The snapshot sent to a replica on a full resynchronisation: an empty
    /// database.
    pub fn get_empty_rdbfile() -> (r: Value)
        ensures
            r@ == Resp::Rdb(hex_decoded(ascii(empty_rdb_hex()@))),
    {
        proof {
            reveal_strlit("524544495330303131fa0972656469732d76657205372e322e30fa0a72656469732d62697473c040fa056374696d65c26d08bc65fa08757365642d6d656dc2b0c41000fa08616f662d62617365c000fff06e3bfec0ff5aa2");
        }
        let text = ascii_bytes(empty_rdb_hex());
        match decode_hex(text.as_slice()) {
            Some(b) => Value::RdbFile(b),
            None => Value::RdbFile(Vec::new()),
        }
    }
}

/// Whether `v` is the bulk string `lit`, ignoring ASCII case.
pub open spec fn is_bulk_word(v: Resp, lit: Seq<char>) -> bool {
    v matches Resp::Bulk(Some(w)) && crate::text::lower(w) == crate::text::lower(ascii(lit))
}

/// The offset that a replica's `REPLCONF ACK <offset>` reply reports: an
/// array of the bulk strings `REPLCONF`, `ACK` and the offset.
pub open spec fn ack_offset(v: Resp) -> Option<u64> {
    match v {
        Resp::Arr(items) => if items.len() == 3 && is_bulk_word(items[0], "REPLCONF"@) && is_bulk_word(
            items[1],
            "ACK"@,
        ) && (items[2] matches Resp::Bulk(Some(t))) {
            crate::entry_id::parse_u64_spec(items[2]->Bulk_0->0)
        } else {
            None
        },
        _ => None,
    }
}

fn is_bulk_word_value(v: &Value, lit: &str) -> (r: bool)
    requires
        lit.is_ascii(),
    ensures
        r == is_bulk_word(v@, lit@),
{
    match v {
        Value::BulkString(Some(w)) => {
            let l = ascii_bytes(lit);
            crate::text::eq_ignore_case(w.as_slice(), l.as_slice())
        },
        _ => false,
    }
}

/// Reads the offset from a replica's acknowledgement.
pub fn parse_ack(v: &Value) -> (r: Option<u64>)
    ensures
        r == ack_offset(v@),
{
    match v {
        Value::Array(items) => {
            proof {
                lemma_models(items@);
                reveal_strlit("REPLCONF");
                reveal_strlit("ACK");
            }
            if items.len() != 3 || !is_bulk_word_value(&items[0], "REPLCONF") || !is_bulk_word_value(
                &items[1],
                "ACK",
            ) {
                return None;
            }
            match &items[2] {
                Value::BulkString(Some(t)) => crate::entry_id::parse_u64(t.as_slice()),
                _ => None,
            }
        },
        _ => None,
    }
}

/// The empty snapshot, as hexadecimal text.
pub open spec fn empty_rdb_hex_spec() -> &'static str {
    "524544495330303131fa0972656469732d76657205372e322e30fa0a72656469732d62697473c040fa056374696d65c26d08bc65fa08757365642d6d656dc2b0c41000fa08616f662d62617365c000fff06e3bfec0ff5aa2"
}

#[verifier::when_used_as_spec(empty_rdb_hex_spec)]
pub fn empty_rdb_hex() -> (r: &'static str)
    ensures
        r == empty_rdb_hex_spec(),
{
    "524544495330303131fa0972656469732d76657205372e322e30fa0a72656469732d62697473c040fa056374696d65c26d08bc65fa08757365642d6d656dc2b0c41000fa08616f662d62617365c000fff06e3bfec0ff5aa2"
}

/// Whether a frame is a write command for the log.
fn is_write_command(v: &Value) -> (r: bool)
    ensures
        r == is_write_frame(v@),
{
    match v {
        Value::Array(items) => {
            if items.len() == 0 {
                return false;
            }
            proof {
                lemma_models(items@);
            }
            match &items[0] {
                Value::BulkString(Some(name)) => {
                    proof {
                        reveal_strlit("set");
                        reveal_strlit("del");
                    }
                    let set = ascii_bytes("set");
                    let del = ascii_bytes("del");
                    crate::text::eq_ignore_case(name.as_slice(), set.as_slice())
                        || crate::text::eq_ignore_case(name.as_slice(), del.as_slice())
                },
                _ => false,
            }
        },
        _ => false,
    }
}

} // verus!
