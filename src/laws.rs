//! Properties of the engine that relate several operations or hold of every
//! state, proved from the contracts of the functions involved.
use vstd::prelude::*;
use crate::commands::{command_post, get_post, incr_post, keys_post, set_post};
use crate::decimal::{int_of_text, lemma_int_of_text_is_text, digits_value, canonical_digits};
use crate::entry_id::{EntryId, id_lt, id_spec_of, IdSpec, find_byte, parse_u64_spec};
use crate::glob::has_wildcard;
use crate::keyspace::{Stored};
use crate::resp::Resp;
use crate::server::{ServerView, Verdict, cmd_is, bulk_among, stored_of, simple};
use crate::stream::{Stream, xadd_outcome, XaddError};
use crate::replication::count_caught_up;
use crate::session::{command_parts, frame_of, runs, client_post, logged, immediate};
use crate::text::{ascii, lower};

verus! {

/// Within every stream, an entry appended earlier has a smaller ID than one
/// appended later.
pub proof fn lemma_stream_ids_increase(s: &Stream, name: Seq<u8>, i: int, j: int)
    requires
        s.wf(),
        s@.contains_key(name),
        0 <= i < j < s@[name].len(),
    ensures
        id_lt(s@[name][i].0, s@[name][j].0),
{
    s.lemma_wf_streams(name);
}

/// The lower-case bytes of the command names that the dispatcher tries
/// before GET, INCR and KEYS, and of those names.
proof fn lemma_command_names()
    ensures
        lower(ascii("ping"@)) == seq![112u8, 105u8, 110u8, 103u8],
        lower(ascii("echo"@)) == seq![101u8, 99u8, 104u8, 111u8],
        lower(ascii("set"@)) == seq![115u8, 101u8, 116u8],
        lower(ascii("get"@)) == seq![103u8, 101u8, 116u8],
        lower(ascii("del"@)) == seq![100u8, 101u8, 108u8],
        lower(ascii("exists"@)) == seq![101u8, 120u8, 105u8, 115u8, 116u8, 115u8],
        lower(ascii("incr"@)) == seq![105u8, 110u8, 99u8, 114u8],
        lower(ascii("decr"@)) == seq![100u8, 101u8, 99u8, 114u8],
        lower(ascii("type"@)) == seq![116u8, 121u8, 112u8, 101u8],
        lower(ascii("keys"@)) == seq![107u8, 101u8, 121u8, 115u8],
{
    reveal_strlit("ping");
    reveal_strlit("echo");
    reveal_strlit("set");
    reveal_strlit("get");
    reveal_strlit("del");
    reveal_strlit("exists");
    reveal_strlit("incr");
    reveal_strlit("decr");
    reveal_strlit("type");
    reveal_strlit("keys");
    assert(lower(ascii("ping"@)) =~= seq![112u8, 105u8, 110u8, 103u8]);
    assert(lower(ascii("echo"@)) =~= seq![101u8, 99u8, 104u8, 111u8]);
    assert(lower(ascii("set"@)) =~= seq![115u8, 101u8, 116u8]);
    assert(lower(ascii("get"@)) =~= seq![103u8, 101u8, 116u8]);
    assert(lower(ascii("del"@)) =~= seq![100u8, 101u8, 108u8]);
    assert(lower(ascii("exists"@)) =~= seq![101u8, 120u8, 105u8, 115u8, 116u8, 115u8]);
    assert(lower(ascii("incr"@)) =~= seq![105u8, 110u8, 99u8, 114u8]);
    assert(lower(ascii("decr"@)) =~= seq![100u8, 101u8, 99u8, 114u8]);
    assert(lower(ascii("type"@)) =~= seq![116u8, 121u8, 112u8, 101u8]);
    assert(lower(ascii("keys"@)) =~= seq![107u8, 101u8, 121u8, 115u8]);
}

/// A GET of a key whose expiry instant has passed replies with the null bulk
/// string and leaves the key absent.
pub proof fn lemma_get_after_expiry(
    pre: ServerView,
    c: Seq<u8>,
    k: Seq<u8>,
    now: u64,
    peer: Seq<u8>,
    ip: Seq<u8>,
    out: Verdict,
    post: ServerView,
)
    requires
        cmd_is(c, "get"@),
        pre.keys.contains_key(k),
        pre.keys[k].1 matches Some(t) && now >= t,
        command_post(pre, c, seq![k], now, peer, ip, out, post),
    ensures
        out == Verdict::Reply(Resp::Bulk(None)),
        !post.keys.contains_key(k),
{
    lemma_command_names();
    assert(get_post(pre, seq![k], now, out, post));
}

/// A SET of `k` to `v` without options, then a GET of `k` at any later
/// instant, gives back `v`: what a replica applies from the master becomes
/// visible to GET on the replica.
pub proof fn lemma_set_then_get(
    pre: ServerView,
    c1: Seq<u8>,
    k: Seq<u8>,
    v: Seq<u8>,
    now1: u64,
    c2: Seq<u8>,
    now2: u64,
    peer: Seq<u8>,
    ip: Seq<u8>,
    out1: Verdict,
    mid: ServerView,
    out2: Verdict,
    post: ServerView,
)
    requires
        cmd_is(c1, "set"@),
        cmd_is(c2, "get"@),
        command_post(pre, c1, seq![k, v], now1, peer, ip, out1, mid),
        command_post(mid, c2, seq![k], now2, peer, ip, out2, post),
    ensures
        out1 == Verdict::Reply(simple("OK"@)),
        out2 == Verdict::Reply(Resp::Bulk(Some(v))),
{
    lemma_command_names();
    let a = seq![k, v];
    assert(a.subrange(2, a.len() as int).len() == 0);
    assert(set_post(pre, a, now1, out1, mid));
    assert(mid.keys == pre.keys.insert(k, (stored_of(v), None::<u64>)));
    assert(get_post(mid, seq![k], now2, out2, post));
    lemma_int_of_text_is_text(v);
}

/// INCR of a key that SET gave the payload `10` replies 11.
pub proof fn lemma_incr_after_set_ten(
    pre: ServerView,
    c1: Seq<u8>,
    k: Seq<u8>,
    now1: u64,
    c2: Seq<u8>,
    now2: u64,
    peer: Seq<u8>,
    ip: Seq<u8>,
    out1: Verdict,
    mid: ServerView,
    out2: Verdict,
    post: ServerView,
)
    requires
        cmd_is(c1, "set"@),
        cmd_is(c2, "incr"@),
        command_post(pre, c1, seq![k, seq![49u8, 48u8]], now1, peer, ip, out1, mid),
        command_post(mid, c2, seq![k], now2, peer, ip, out2, post),
    ensures
        out2 == Verdict::Reply(Resp::Int(11)),
{
    lemma_command_names();
    let ten = seq![49u8, 48u8];
    let a = seq![k, ten];
    assert(a.subrange(2, a.len() as int).len() == 0);
    assert(set_post(pre, a, now1, out1, mid));
    assert(canonical_digits(ten));
    let one = seq![49u8];
    assert(ten.drop_last() =~= one);
    assert(one.drop_last() =~= Seq::<u8>::empty());
    assert(digits_value(Seq::<u8>::empty()) == 0);
    assert(digits_value(one) == digits_value(one.drop_last()) * 10 + (one.last() - 48) as nat);
    assert(digits_value(one) == 1);
    assert(digits_value(ten) == digits_value(ten.drop_last()) * 10 + (ten.last() - 48) as nat);
    assert(digits_value(ten) == 10);
    assert(int_of_text(ten) == Some(10int));
    assert(incr_post(mid, seq![k], 1, "INCR"@, now2, out2, post));
}

/// KEYS with a pattern of wildcards on an empty keyspace replies with an
/// empty array.
pub proof fn lemma_keys_on_empty(
    pre: ServerView,
    c: Seq<u8>,
    p: Seq<u8>,
    now: u64,
    peer: Seq<u8>,
    ip: Seq<u8>,
    out: Verdict,
    post: ServerView,
)
    requires
        cmd_is(c, "keys"@),
        has_wildcard(p),
        pre.keys == Map::<Seq<u8>, Stored>::empty(),
        command_post(pre, c, seq![p], now, peer, ip, out, post),
    ensures
        out == Verdict::Reply(Resp::Arr(Seq::empty())),
{
    lemma_command_names();
    assert(keys_post(pre, seq![p], now, out, post));
    let items = out->Reply_0->Arr_0;
    if items.len() > 0 {
        let k0 = items[0]->Bulk_0->0;
        assert(bulk_among(items, k0));
        assert(!pre.keys.contains_key(k0));
    }
    assert(items =~= Seq::<Resp>::empty());
}

/// An append with the ID `0-0` is refused, whatever the stream holds and
/// whatever the time.
pub proof fn lemma_zero_id_refused(last: Option<EntryId>, now: u64)
    ensures
        xadd_outcome(last, seq![48u8, 45u8, 48u8], now) == Err::<EntryId, XaddError>(XaddError::ZeroId),
{
    let s = seq![48u8, 45u8, 48u8];
    assert(find_byte(s, 45u8, 1) == Some(1int));
    assert(find_byte(s, 45u8, 0) == Some(1int));
    let z = seq![48u8];
    assert(s.subrange(0, 1) =~= z);
    assert(s.subrange(2, 3) =~= z);
    assert(z.drop_last() =~= Seq::<u8>::empty());
    assert(digits_value(Seq::<u8>::empty()) == 0);
    assert(digits_value(z) == digits_value(z.drop_last()) * 10 + (z.last() - 48) as nat);
    assert(digits_value(z) == 0);
    assert(parse_u64_spec(z) == Some(0u64));
    assert(s != seq![42u8]);
    assert(z != seq![42u8]);
    assert(id_spec_of(s) == Some(IdSpec::Explicit(EntryId { ms: 0, seq: 0 })));
}

/// The ID `0-*` on an empty stream gives `0-1`.
pub proof fn lemma_first_generated_id_at_zero(now: u64)
    ensures
        xadd_outcome(None, seq![48u8, 45u8, 42u8], now) == Ok::<EntryId, XaddError>(EntryId { ms: 0, seq: 1 }),
{
    let s = seq![48u8, 45u8, 42u8];
    assert(find_byte(s, 45u8, 1) == Some(1int));
    assert(find_byte(s, 45u8, 0) == Some(1int));
    let z = seq![48u8];
    assert(s.subrange(0, 1) =~= z);
    assert(s.subrange(2, 3) =~= seq![42u8]);
    assert(z.drop_last() =~= Seq::<u8>::empty());
    assert(digits_value(Seq::<u8>::empty()) == 0);
    assert(digits_value(z) == digits_value(z.drop_last()) * 10 + (z.last() - 48) as nat);
    assert(parse_u64_spec(z) == Some(0u64));
    assert(s != seq![42u8]);
    assert(id_spec_of(s) == Some(IdSpec::AutoSeq(0)));
}

/// The ID `5-*` after the entry `5-7` gives `5-8`.
pub proof fn lemma_next_generated_id(now: u64)
    ensures
        xadd_outcome(Some(EntryId { ms: 5, seq: 7 }), seq![53u8, 45u8, 42u8], now) == Ok::<EntryId, XaddError>(
            EntryId { ms: 5, seq: 8 },
        ),
{
    let s = seq![53u8, 45u8, 42u8];
    assert(find_byte(s, 45u8, 1) == Some(1int));
    assert(find_byte(s, 45u8, 0) == Some(1int));
    let f = seq![53u8];
    assert(s.subrange(0, 1) =~= f);
    assert(s.subrange(2, 3) =~= seq![42u8]);
    assert(f.drop_last() =~= Seq::<u8>::empty());
    assert(digits_value(Seq::<u8>::empty()) == 0);
    assert(digits_value(f) == digits_value(f.drop_last()) * 10 + (f.last() - 48) as nat);
    assert(parse_u64_spec(f) == Some(5u64));
    assert(s != seq![42u8]);
    assert(id_spec_of(s) == Some(IdSpec::AutoSeq(5)));
}

/// The count that WAIT answers never exceeds the number of registered
/// replicas.
pub proof fn lemma_wait_count_bounded(acks: Seq<u64>, offset: u64)
    ensures
        0 <= crate::info::clamp_i64(count_caught_up(acks, offset) as u64) <= acks.len(),
{
    crate::replication::lemma_count_caught_up_bound(acks, offset);
}

/// The frame that carries a command reads back as that command: what the
/// master logs for a write is what a replica applies.
pub proof fn lemma_frame_parts(c: Seq<u8>, a: Seq<Seq<u8>>)
    ensures
        command_parts(frame_of(c, a)) == Some((c, a)),
{
    let items = frame_of(c, a)->Arr_0;
    assert(items.len() == a.len() + 1);
    assert(forall|i: int| 0 <= i < items.len() ==> (#[trigger] items[i] is Bulk && items[i]->Bulk_0 is Some)) by {
        assert forall|i: int| 0 <= i < items.len() implies (#[trigger] items[i] is Bulk && items[i]->Bulk_0 is Some) by {
            if i > 0 {
                assert(items[i] == Resp::Bulk(Some(a[i - 1])));
            }
        }
    }
    assert(Seq::new((items.len() - 1) as nat, |i: int| items[i + 1]->Bulk_0->0) =~= a);
}

/// A transaction that queued `SET a 1` then `INCR a` replies, on EXEC,
/// `OK` then 2.
pub proof fn lemma_set_incr_transaction(
    pre: ServerView,
    c1: Seq<u8>,
    c2: Seq<u8>,
    k: Seq<u8>,
    now: u64,
    peer: Seq<u8>,
    ip: Seq<u8>,
    replies: Seq<Resp>,
    post: ServerView,
)
    requires
        cmd_is(c1, "set"@),
        cmd_is(c2, "incr"@),
        runs(pre, seq![(c1, seq![k, seq![49u8]]), (c2, seq![k])], now, peer, ip, replies, post),
    ensures
        replies == seq![simple("OK"@), Resp::Int(2)],
{
    lemma_command_names();
    let q = seq![(c1, seq![k, seq![49u8]]), (c2, seq![k])];
    assert(q.drop_last() =~= seq![(c1, seq![k, seq![49u8]])]);
    assert(q.drop_last().drop_last() =~= Seq::<(Seq<u8>, Seq<Seq<u8>>)>::empty());
    let (mid, out2, after2) = choose|mid: ServerView, out: Verdict, after: ServerView|
        runs(pre, q.drop_last(), now, peer, ip, replies.drop_last(), mid) && #[trigger] client_post(
            mid, q.last().0, q.last().1, now, peer, ip, out, after,
        ) && replies.last() == immediate(out, after) && post == after;
    let r1 = replies.drop_last();
    let q1 = q.drop_last();
    let (m0, out1, after1) = choose|m0: ServerView, out: Verdict, after: ServerView|
        runs(pre, q1.drop_last(), now, peer, ip, r1.drop_last(), m0) && #[trigger] client_post(
            m0, q1.last().0, q1.last().1, now, peer, ip, out, after,
        ) && r1.last() == immediate(out, after) && mid == after;
    assert(m0 == pre);
    let a = q1.last().1;
    assert(a == seq![k, seq![49u8]]);
    let s1 = choose|s1: ServerView| #[trigger] command_post(m0, c1, a, now, peer, ip, out1, s1)
        && after1 == logged(s1, frame_of(c1, a), out1);
    assert(a.subrange(2, a.len() as int).len() == 0);
    assert(set_post(m0, a, now, out1, s1));
    let one = seq![49u8];
    assert(one.drop_last() =~= Seq::<u8>::empty());
    assert(digits_value(Seq::<u8>::empty()) == 0);
    assert(digits_value(one) == digits_value(one.drop_last()) * 10 + (one.last() - 48) as nat);
    assert(canonical_digits(one));
    assert(int_of_text(one) == Some(1int));
    assert(after1.keys == s1.keys);
    let a2 = q.last().1;
    assert(a2 == seq![k]);
    let s2 = choose|s2: ServerView| #[trigger] command_post(mid, c2, a2, now, peer, ip, out2, s2)
        && after2 == logged(s2, frame_of(c2, a2), out2);
    assert(incr_post(mid, a2, 1, "INCR"@, now, out2, s2));
    assert(replies =~= seq![simple("OK"@), Resp::Int(2)]) by {
        assert(replies.len() == 2);
        assert(r1.len() == 1);
        assert(replies[0] == r1.last());
    }
}

} // verus!
