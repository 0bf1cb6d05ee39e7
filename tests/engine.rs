use redis_core::codec::{parse_message, FrameError};
use redis_core::db::RedisDb;
use redis_core::entry_id::{parse_bound, parse_id_spec, EntryId, IdSpec};
use redis_core::glob::{glob_to_regex, GlobMatcher};
use redis_core::handshake::{handshake_advance, handshake_request, HandshakeStep};
use redis_core::keyspace::Keyspace;
use redis_core::rdb::parse_rdb;
use redis_core::replication::{parse_ack, Slaves};
use redis_core::resp::Value;
use redis_core::server::{block_read_step, wait_step, Config, Outcome};
use redis_core::session::{extract_command, starts_full_resync, Session};
use redis_core::stream::{Stream, XaddError};

fn b(s: &str) -> Vec<u8> {
    s.as_bytes().to_vec()
}

fn bulk(s: &str) -> Value {
    Value::BulkString(Some(b(s)))
}

struct Conn {
    session: Session,
    db: RedisDb,
}

impl Conn {
    fn new() -> Conn {
        Conn { session: Session::new(), db: RedisDb::new() }
    }

    fn run(&mut self, config: &mut Config, parts: &[&str], now: u64) -> Outcome {
        let args: Vec<Vec<u8>> = parts[1..].iter().map(|p| b(p)).collect();
        self.session.handle(&mut self.db, config, parts[0].as_bytes(), &args, now, b"127.0.0.1:50000", b"127.0.0.1")
    }

    fn reply(&mut self, config: &mut Config, parts: &[&str], now: u64) -> Vec<u8> {
        match self.run(config, parts, now) {
            Outcome::Reply(v) => v.serialize(),
            _ => panic!("expected a reply"),
        }
    }
}

fn frame(parts: &[&str]) -> Vec<u8> {
    Value::Array(parts.iter().map(|p| bulk(p)).collect()).serialize()
}

#[test]
fn ping_and_echo_on_the_wire() {
    let mut config = Config::new();
    let mut conn = Conn::new();
    let (v, n) = parse_message(b"*1\r\n$4\r\nPING\r\n").unwrap();
    assert_eq!(n, 14);
    let (c, a) = extract_command(&v).unwrap();
    let mut db = RedisDb::new();
    match db.handle_command(&c, &a, &mut config, 0, b"p", b"i") {
        Outcome::Reply(r) => assert_eq!(r.serialize(), b"+PONG\r\n".to_vec()),
        _ => panic!(),
    }
    assert_eq!(conn.reply(&mut config, &["ECHO", "hey"], 0), b"$3\r\nhey\r\n".to_vec());
    assert_eq!(conn.reply(&mut config, &["echo"], 0), b"-Wrong number of arguments for ECHO\r\n".to_vec());
}

#[test]
fn set_with_expiry_then_get_after_it() {
    let mut config = Config::new();
    let mut conn = Conn::new();
    assert_eq!(conn.reply(&mut config, &["SET", "k", "v", "PX", "100"], 1000), b"+OK\r\n".to_vec());
    assert_eq!(conn.reply(&mut config, &["GET", "k"], 1050), b"$1\r\nv\r\n".to_vec());
    assert_eq!(conn.reply(&mut config, &["GET", "k"], 1150), b"$-1\r\n".to_vec());
    assert_eq!(conn.reply(&mut config, &["EXISTS", "k"], 1150), b":0\r\n".to_vec());
}

#[test]
fn set_options_errors_and_ex() {
    let mut config = Config::new();
    let mut conn = Conn::new();
    assert_eq!(conn.reply(&mut config, &["SET", "k"], 0), b"-Wrong number of arguments for SET\r\n".to_vec());
    assert_eq!(conn.reply(&mut config, &["SET", "k", "v", "PX"], 0), b"-Wrong number of arguments for PX\r\n".to_vec());
    assert_eq!(conn.reply(&mut config, &["SET", "k", "v", "PX", "x"], 0), b"-Invalid TTL value for PX\r\n".to_vec());
    assert_eq!(conn.reply(&mut config, &["SET", "k", "v", "NX"], 0), b"-Unknown option: NX\r\n".to_vec());
    assert_eq!(conn.reply(&mut config, &["SET", "k", "v", "EX", "2", "px", "10"], 0), b"+OK\r\n".to_vec());
    assert_eq!(conn.reply(&mut config, &["GET", "k"], 9), b"$1\r\nv\r\n".to_vec());
    assert_eq!(conn.reply(&mut config, &["GET", "k"], 10), b"$-1\r\n".to_vec());
}

#[test]
fn incr_after_set_ten() {
    let mut config = Config::new();
    let mut conn = Conn::new();
    assert_eq!(conn.reply(&mut config, &["SET", "n", "10"], 0), b"+OK\r\n".to_vec());
    assert_eq!(conn.reply(&mut config, &["INCR", "n"], 0), b":11\r\n".to_vec());
    assert_eq!(conn.reply(&mut config, &["GET", "n"], 0), b"$2\r\n11\r\n".to_vec());
    assert_eq!(conn.reply(&mut config, &["DECR", "fresh"], 0), b":-1\r\n".to_vec());
    assert_eq!(conn.reply(&mut config, &["SET", "s", "abc"], 0), b"+OK\r\n".to_vec());
    assert_eq!(conn.reply(&mut config, &["INCR", "s"], 0), b"-ERR value is not an integer or out of range\r\n".to_vec());
    assert_eq!(conn.reply(&mut config, &["SET", "m", "9223372036854775807"], 0), b"+OK\r\n".to_vec());
    assert_eq!(conn.reply(&mut config, &["INCR", "m"], 0), b"-ERR value is not an integer or out of range\r\n".to_vec());
    assert_eq!(conn.reply(&mut config, &["SET", "z", "007"], 0), b"+OK\r\n".to_vec());
    assert_eq!(conn.reply(&mut config, &["GET", "z"], 0), b"$3\r\n007\r\n".to_vec());
}

#[test]
fn del_type_and_unknown() {
    let mut config = Config::new();
    let mut conn = Conn::new();
    conn.reply(&mut config, &["SET", "a", "1"], 0);
    assert_eq!(conn.reply(&mut config, &["TYPE", "a"], 0), b"+string\r\n".to_vec());
    assert_eq!(conn.reply(&mut config, &["DEL", "a"], 0), b":1\r\n".to_vec());
    assert_eq!(conn.reply(&mut config, &["DEL", "a"], 0), b":0\r\n".to_vec());
    assert_eq!(conn.reply(&mut config, &["TYPE", "a"], 0), b"+none\r\n".to_vec());
    conn.reply(&mut config, &["XADD", "s", "1-1", "f", "v"], 0);
    assert_eq!(conn.reply(&mut config, &["type", "s"], 0), b"+stream\r\n".to_vec());
    assert_eq!(conn.reply(&mut config, &["FLY"], 0), b"-Unknown command: FLY\r\n".to_vec());
}

#[test]
fn keys_on_empty_and_patterns() {
    let mut config = Config::new();
    let mut conn = Conn::new();
    assert_eq!(conn.reply(&mut config, &["KEYS", "*"], 0), b"*0\r\n".to_vec());
    conn.reply(&mut config, &["SET", "apple", "1"], 0);
    conn.reply(&mut config, &["SET", "apply", "2"], 0);
    conn.reply(&mut config, &["SET", "banana", "3", "PX", "5"], 0);
    assert_eq!(conn.reply(&mut config, &["KEYS", "app?e"], 0), b"*1\r\n$5\r\napple\r\n".to_vec());
    assert_eq!(conn.reply(&mut config, &["KEYS", "*"], 10), b"*2\r\n$5\r\napple\r\n$5\r\napply\r\n".to_vec());
    assert_eq!(conn.reply(&mut config, &["KEYS", "apple"], 0), b"$5\r\napple\r\n".to_vec());
    assert_eq!(conn.reply(&mut config, &["KEYS", "pear"], 0), b"*0\r\n".to_vec());
}

#[test]
fn glob_matching() {
    let m = |p: &[u8], t: &[u8]| GlobMatcher::new(p).matches(t);
    assert!(m(b"*", b""));
    assert!(m(b"a*c", b"abbbc"));
    assert!(!m(b"a*c", b"abbb"));
    assert!(m(b"h?llo", b"hello"));
    assert!(!m(b"h?llo", b"hllo"));
    assert!(!m(b"abc", b"xabcx"));
    assert!(m(b"a.b*", b"a.bz"));
    assert!(!m(b"a.b", b"axb"));
    assert!(m(b"*", b"line\nbreak\xff"));
    assert_eq!(glob_to_regex(b"a*?"), b("(?s-u)\\A\\x61.*.\\z"));
}

#[test]
fn streams_round_trip() {
    let mut config = Config::new();
    let mut conn = Conn::new();
    assert_eq!(conn.reply(&mut config, &["XADD", "s", "1-1", "f", "v"], 0), b"$3\r\n1-1\r\n".to_vec());
    assert_eq!(
        conn.reply(&mut config, &["XADD", "s", "1-1", "f", "v"], 0),
        b"-ERR The ID specified in XADD is equal or smaller than the target stream top item\r\n".to_vec()
    );
    assert_eq!(
        conn.reply(&mut config, &["XRANGE", "s", "-", "+"], 0),
        b"*1\r\n*2\r\n$3\r\n1-1\r\n*2\r\n$1\r\nf\r\n$1\r\nv\r\n".to_vec()
    );
}

#[test]
fn xadd_zero_id_is_refused() {
    let mut s = Stream::new();
    assert_eq!(s.insert_stream_item(b"s", b"0-0", vec![(b("f"), b("v"))], 5), Err(XaddError::ZeroId));
    s.insert_stream_item(b"s", b"3-3", vec![(b("f"), b("v"))], 5).unwrap();
    assert_eq!(s.insert_stream_item(b"s", b"0-0", vec![(b("f"), b("v"))], 5), Err(XaddError::ZeroId));
    assert_eq!(s.insert_stream_item(b"s", b"abc", vec![], 5), Err(XaddError::InvalidId));
    assert_eq!(XaddError::ZeroId.message(), b("ERR The ID specified in XADD must be greater than 0-0"));
}

#[test]
fn xadd_generated_sequence_numbers() {
    let mut s = Stream::new();
    assert_eq!(s.insert_stream_item(b"e", b"0-*", vec![(b("f"), b("v"))], 5), Ok(EntryId { ms: 0, seq: 1 }));
    assert_eq!(s.insert_stream_item(b"t", b"5-7", vec![(b("f"), b("v"))], 5), Ok(EntryId { ms: 5, seq: 7 }));
    assert_eq!(s.insert_stream_item(b"t", b"5-*", vec![(b("f"), b("v"))], 5), Ok(EntryId { ms: 5, seq: 8 }));
    assert_eq!(s.insert_stream_item(b"t", b"*", vec![(b("f"), b("v"))], 9), Ok(EntryId { ms: 9, seq: 0 }));
    assert_eq!(s.insert_stream_item(b"t", b"*", vec![(b("f"), b("v"))], 9), Ok(EntryId { ms: 9, seq: 1 }));
    assert_eq!(s.insert_stream_item(b"t", b"4-*", vec![(b("f"), b("v"))], 9), Err(XaddError::NotGreater));
}

#[test]
fn xrange_bounds_and_xread() {
    let mut config = Config::new();
    let mut conn = Conn::new();
    conn.reply(&mut config, &["XADD", "s", "1-1", "a", "1"], 0);
    conn.reply(&mut config, &["XADD", "s", "2-1", "b", "2"], 0);
    conn.reply(&mut config, &["XADD", "s", "2-5", "c", "3"], 0);
    assert_eq!(
        conn.reply(&mut config, &["XRANGE", "s", "2", "2"], 0),
        b"*2\r\n*2\r\n$3\r\n2-1\r\n*2\r\n$1\r\nb\r\n$1\r\n2\r\n*2\r\n$3\r\n2-5\r\n*2\r\n$1\r\nc\r\n$1\r\n3\r\n".to_vec()
    );
    assert_eq!(
        conn.reply(&mut config, &["XREAD", "streams", "s", "2-1"], 0),
        b"*1\r\n*2\r\n$1\r\ns\r\n*1\r\n*2\r\n$3\r\n2-5\r\n*2\r\n$1\r\nc\r\n$1\r\n3\r\n".to_vec()
    );
    assert_eq!(conn.reply(&mut config, &["XREAD", "streams", "s", "2-5"], 0), b"*0\r\n".to_vec());
    match conn.run(&mut config, &["XREAD", "block", "100", "streams", "s", "$"], 0) {
        Outcome::BlockRead(ms, req) => {
            assert_eq!(ms, 100);
            assert_eq!(req, vec![(b("s"), EntryId { ms: 2, seq: 5 })]);
        }
        _ => panic!(),
    }
    assert_eq!(parse_bound(b"7", true), Some(EntryId { ms: 7, seq: u64::MAX }));
    assert_eq!(parse_id_spec(b"12-*"), Some(IdSpec::AutoSeq(12)));
}

#[test]
fn transaction_queues_and_runs() {
    let mut config = Config::new();
    let mut conn = Conn::new();
    assert_eq!(conn.reply(&mut config, &["MULTI"], 0), b"+OK\r\n".to_vec());
    assert_eq!(conn.reply(&mut config, &["MULTI"], 0), b"-ERR MULTI calls can not be nested\r\n".to_vec());
    assert_eq!(conn.reply(&mut config, &["SET", "a", "1"], 0), b"+QUEUED\r\n".to_vec());
    assert_eq!(conn.reply(&mut config, &["INCR", "a"], 0), b"+QUEUED\r\n".to_vec());
    assert_eq!(conn.reply(&mut config, &["EXEC"], 0), b"*2\r\n+OK\r\n:2\r\n".to_vec());
    assert_eq!(conn.reply(&mut config, &["EXEC"], 0), b"-ERR EXEC without MULTI\r\n".to_vec());
    assert_eq!(conn.reply(&mut config, &["DISCARD"], 0), b"-ERR DISCARD without MULTI\r\n".to_vec());
    conn.reply(&mut config, &["MULTI"], 0);
    conn.reply(&mut config, &["SET", "a", "9"], 0);
    assert_eq!(conn.reply(&mut config, &["DISCARD"], 0), b"+OK\r\n".to_vec());
    assert_eq!(conn.reply(&mut config, &["GET", "a"], 0), b"$1\r\n2\r\n".to_vec());
}

#[test]
fn wait_with_no_replicas() {
    let mut config = Config::new();
    let mut conn = Conn::new();
    match conn.run(&mut config, &["WAIT", "0", "100"], 0) {
        Outcome::Wait(n, t) => {
            assert_eq!((n, t), (0, 100));
            assert_eq!(config.slaves.wait(), 0);
        }
        _ => panic!(),
    }
    assert_eq!(conn.reply(&mut config, &["WAIT", "x", "100"], 0), b"-ERR value is not an integer or out of range\r\n".to_vec());
}

#[test]
fn master_side_replication() {
    let mut config = Config::new();
    let mut conn = Conn::new();
    assert_eq!(conn.reply(&mut config, &["REPLCONF", "listening-port", "6380"], 0), b"+OK\r\n".to_vec());
    assert_eq!(conn.reply(&mut config, &["REPLCONF", "capa", "psync2"], 0), b"+OK\r\n".to_vec());
    assert_eq!(
        conn.reply(&mut config, &["PSYNC", "?", "-1"], 0),
        b"+FULLRESYNC 8371b4fb1155b71f4a04d3e1bc3e18c4a990aeeb 0\r\n".to_vec()
    );
    let i = config.slaves.add_new_slave_handler(b"127.0.0.1:50000");
    assert_eq!(config.slaves.replica_count(), 1);
    conn.reply(&mut config, &["SET", "k", "v"], 0);
    conn.reply(&mut config, &["GET", "k"], 0);
    let set_len = frame(&["SET", "k", "v"]).len() as u64;
    assert_eq!(config.slaves.master_offset(), set_len);
    let pending = config.slaves.take_pending(i);
    assert_eq!(pending.len(), 1);
    assert_eq!(pending[0].serialize(), frame(&["SET", "k", "v"]));
    assert_eq!(config.slaves.take_pending(i).len(), 0);
    assert_eq!(config.slaves.wait(), 0);
    config.slaves.record_ack(i, set_len);
    assert_eq!(config.slaves.wait(), 1);
    config.slaves.record_ack(i, set_len + 5);
    assert_eq!(config.slaves.wait(), 0);
    let info = conn.reply(&mut config, &["INFO", "replication"], 0);
    let text = String::from_utf8(info).unwrap();
    assert!(text.contains("role:master\n"));
    assert!(text.contains("connected_slaves:1\n"));
    assert!(text.contains(&format!("master_repl_offset:{}\n", set_len)));
    assert_eq!(Slaves::getack_frame().serialize(), frame(&["REPLCONF", "GETACK", "*"]));
}

#[test]
fn empty_snapshot_decodes() {
    let v = Slaves::get_empty_rdbfile();
    match &v {
        Value::RdbFile(bytes) => {
            assert_eq!(bytes.len(), 88);
            assert_eq!(&bytes[0..5], b"REDIS");
        }
        _ => panic!(),
    }
    let wire = v.serialize();
    let (back, n) = parse_message(&wire).unwrap();
    assert_eq!(n, wire.len());
    assert_eq!(back, v);
}

#[test]
fn replica_handshake_steps() {
    assert_eq!(handshake_request(HandshakeStep::Ping, b"6380").unwrap().serialize(), frame(&["PING"]));
    assert_eq!(
        handshake_request(HandshakeStep::ListeningPort, b"6380").unwrap().serialize(),
        frame(&["REPLCONF", "listening-port", "6380"])
    );
    assert_eq!(handshake_request(HandshakeStep::Capa, b"6380").unwrap().serialize(), frame(&["REPLCONF", "capa", "psync2"]));
    assert_eq!(handshake_request(HandshakeStep::Psync, b"6380").unwrap().serialize(), frame(&["PSYNC", "?", "-1"]));
    assert_eq!(handshake_advance(HandshakeStep::Ping, &Value::SimpleString(b("PONG"))), Some(HandshakeStep::ListeningPort));
    assert_eq!(handshake_advance(HandshakeStep::Ping, &Value::SimpleString(b("OK"))), None);
    assert_eq!(handshake_advance(HandshakeStep::Capa, &Value::SimpleString(b("OK"))), Some(HandshakeStep::Psync));
    assert_eq!(
        handshake_advance(HandshakeStep::Psync, &Value::SimpleString(b("FULLRESYNC abc 0"))),
        Some(HandshakeStep::Snapshot)
    );
    assert_eq!(handshake_advance(HandshakeStep::Snapshot, &Slaves::get_empty_rdbfile()), Some(HandshakeStep::Streaming));
}

#[test]
fn replica_applies_and_acks() {
    let mut config = Config::new();
    let mut db = RedisDb::new();
    let set = Value::Array(vec![bulk("SET"), bulk("k"), bulk("v")]);
    assert!(config.apply_replicated(&mut db, &set, 0, b"m", b"i").is_none());
    let n = set.serialize().len() as u64;
    let getack = Value::Array(vec![bulk("REPLCONF"), bulk("GETACK"), bulk("*")]);
    let ack = config.apply_replicated(&mut db, &getack, 0, b"m", b"i").unwrap();
    assert_eq!(ack.serialize(), frame(&["REPLCONF", "ACK", &n.to_string()]));
    let mut conn = Conn::new();
    assert_eq!(conn.reply(&mut config, &["GET", "k"], 0), b"$1\r\nv\r\n".to_vec());
}

#[test]
fn decoder_cases() {
    assert_eq!(parse_message(b""), Err(FrameError::Incomplete));
    assert_eq!(parse_message(b"+OK"), Err(FrameError::Incomplete));
    assert_eq!(parse_message(b"+OK\rx"), Err(FrameError::Invalid));
    assert_eq!(parse_message(b"?x\r\n"), Err(FrameError::Invalid));
    assert_eq!(parse_message(b":-42\r\n"), Ok((Value::Integer(-42), 6)));
    assert_eq!(parse_message(b":042\r\n"), Err(FrameError::Invalid));
    assert_eq!(parse_message(b"$-1\r\n"), Ok((Value::BulkString(None), 5)));
    assert_eq!(parse_message(b"*-1\r\n"), Ok((Value::BulkString(None), 5)));
    assert_eq!(parse_message(b"$3\r\nab"), Err(FrameError::Incomplete));
    assert_eq!(parse_message(b"$2\r\nabxx"), Err(FrameError::Invalid));
    assert_eq!(parse_message(b"-ERR no\r\n+OK\r\n"), Ok((Value::Error(b("ERR no")), 9)));
    let v = Value::Array(vec![
        Value::SimpleString(b("hi")),
        Value::Integer(i64::MIN),
        Value::BulkString(None),
        Value::Array(vec![bulk(""), Value::Error(b("e"))]),
    ]);
    let mut wire = v.serialize();
    let n = wire.len();
    wire.extend_from_slice(b"*1\r\n");
    assert_eq!(parse_message(&wire), Ok((v, n)));
}

#[test]
fn keyspace_expiry_removes_on_read() {
    let mut ks = Keyspace::new();
    ks.set(b("k"), bulk("v"), Some(100));
    assert!(ks.contains_live(b"k", 99));
    assert_eq!(ks.get(b"k", 99), Some(bulk("v")));
    assert_eq!(ks.get(b"k", 100), None);
    assert!(!ks.contains_live(b"k", 0));
    assert_eq!(ks.incr_by(b"c", 5, 0), Ok(5));
    assert_eq!(ks.incr_by(b"c", -7, 0), Ok(-2));
}

#[test]
fn snapshot_file_loads() {
    let mut file = b"REDIS0011".to_vec();
    file.extend_from_slice(&[0xFA, 3]);
    file.extend_from_slice(b"ver");
    file.extend_from_slice(&[0xC0, 7]);
    file.extend_from_slice(&[0xFE, 0, 0xFB, 4, 2]);
    file.extend_from_slice(&[0x00, 1, b'a', 1, b'x']);
    file.push(0xFC);
    file.extend_from_slice(&2000u64.to_le_bytes());
    file.extend_from_slice(&[0x00, 1, b'b', 0xC1]);
    file.extend_from_slice(&300u16.to_le_bytes());
    file.push(0xFD);
    file.extend_from_slice(&1u32.to_le_bytes());
    file.extend_from_slice(&[0x00, 1, b'c', 1, b'z']);
    file.extend_from_slice(&[0x00, 0xC2]);
    file.extend_from_slice(&70000u32.to_le_bytes());
    file.extend_from_slice(&[0xC3]);
    file.extend_from_slice(&(-5i64).to_le_bytes());
    file.push(0xFF);
    file.extend_from_slice(&[0u8; 8]);
    let snap = parse_rdb(&file, 1500);
    assert_eq!(snap.aux, vec![(b("ver"), Value::Integer(7))]);
    assert_eq!(
        snap.entries,
        vec![
            (b("a"), bulk("x"), None),
            (b("b"), Value::Integer(300), Some(2000)),
            (b("70000"), Value::Integer(-5), None),
        ]
    );
    let mut config = Config::new();
    config.load_rdb(&file, 1500);
    let mut conn = Conn::new();
    assert_eq!(conn.reply(&mut config, &["GET", "b"], 1999), b"$3\r\n300\r\n".to_vec());
    assert_eq!(conn.reply(&mut config, &["GET", "c"], 0), b"$-1\r\n".to_vec());
    assert_eq!(conn.reply(&mut config, &["KEYS", "*"], 1999), b"*3\r\n$1\r\na\r\n$1\r\nb\r\n$5\r\n70000\r\n".to_vec());
    assert_eq!(parse_rdb(b"NOPE00000", 0).entries.len(), 0);
}

#[test]
fn config_get_and_info() {
    let mut config = Config::new();
    config.insert(b"dir", b("/tmp"));
    let mut conn = Conn::new();
    assert_eq!(conn.reply(&mut config, &["CONFIG", "GET", "dir"], 0), b"*2\r\n$3\r\ndir\r\n$4\r\n/tmp\r\n".to_vec());
    assert_eq!(conn.reply(&mut config, &["CONFIG", "GET", "nope"], 0), b"$-1\r\n".to_vec());
    assert_eq!(conn.reply(&mut config, &["CONFIG", "SET", "x"], 0), b"-Unknown CONFIG command\r\n".to_vec());
    config.set_rcliinfo(b("slave"));
    let info = String::from_utf8(conn.reply(&mut config, &["INFO", "replication"], 0)).unwrap();
    assert!(info.contains("role:slave\n"));
    assert!(info.contains("second_repl_offset:-1\n"));
    assert!(info.contains("repl_backlog_size:1048576\n"));
}

#[test]
fn polling_decisions() {
    assert_eq!(block_read_step(vec![Value::Integer(1)], 0, 10), Some(Value::Array(vec![Value::Integer(1)])));
    assert_eq!(block_read_step(vec![], 10, 10), Some(Value::BulkString(None)));
    assert_eq!(block_read_step(vec![], 5, 10), None);
    assert_eq!(block_read_step(vec![], 1_000_000, 0), None);
    assert_eq!(wait_step(0, 0, 0, 100), Some(Value::Integer(0)));
    assert_eq!(wait_step(1, 2, 50, 100), None);
    assert_eq!(wait_step(1, 2, 100, 100), Some(Value::Integer(1)));
}

#[test]
fn acks_and_resync_detection() {
    let ack = Value::Array(vec![bulk("REPLCONF"), bulk("ACK"), bulk("154")]);
    assert_eq!(parse_ack(&ack), Some(154));
    assert_eq!(parse_ack(&Value::Array(vec![bulk("REPLCONF"), bulk("ACK")])), None);
    assert_eq!(parse_ack(&Value::Array(vec![bulk("replconf"), bulk("ack"), bulk("7")])), Some(7));
    assert_eq!(parse_ack(&Value::Array(vec![bulk("REPLCONF"), bulk("NAK"), bulk("7")])), None);
    assert!(starts_full_resync(b"psync", &Value::SimpleString(b("FULLRESYNC x 0"))));
    assert!(!starts_full_resync(b"PSYNC", &Value::Error(b("Unknown PSYNC command"))));
    assert!(!starts_full_resync(b"SET", &Value::SimpleString(b("OK"))));
}

#[test]
fn config_keyspace_accessors() {
    let mut config = Config::new();
    assert_eq!(config.set(b("k"), Value::Integer(5)), Value::SimpleString(b("OK")));
    assert_eq!(config.get(b"k", 0), bulk("5"));
    config.set_expriations(b"k", 10);
    assert_eq!(config.get(b"k", 9), bulk("5"));
    assert_eq!(config.get(b"k", 10), Value::BulkString(None));
    assert_eq!(config.get_keys(b"*", 10), Value::Array(vec![]));
    assert_eq!(config.get_config(b"port"), b("6379"));
    assert_eq!(config.get_config(b"nope"), b("Unknown"));
    assert_eq!(config.get_key_info_of_replication(b"role"), Value::SimpleString(b("master")));
    assert_eq!(config.get_key_info_of_replication(b"second_repl_offset"), Value::Integer(-1));
    config.new_slave_come(b("10.0.0.2:4000"), b("10.0.0.2:6380"));
    assert_eq!(config.add_slave_resphandler(b"10.0.0.2:4000"), 0);
}

#[test]
fn wait_counts_equal_offsets_and_getack_rounds() {
    let mut slaves = Slaves::new();
    let i = slaves.add_new_slave_handler(b"10.0.0.1:1");
    assert_eq!(slaves.wait(), 1);
    slaves.record_ack(i, 5);
    assert_eq!(slaves.wait(), 0);
    let set = Value::Array(vec![bulk("SET"), bulk("k"), bulk("v")]);
    let w = set.serialize().len() as u64;
    assert!(slaves.get_new_client_cmd(set));
    let frames = slaves.frames_for(i);
    assert_eq!(frames.len(), 2);
    assert_eq!(frames[1].serialize(), frame(&["REPLCONF", "GETACK", "*"]));
    slaves.note_getack_sent();
    assert_eq!(slaves.master_offset(), w);
    slaves.record_ack(i, w);
    assert_eq!(slaves.wait(), 1);
    assert_eq!(slaves.frames_for(i).len(), 0);
    assert!(slaves.get_new_client_cmd(Value::Array(vec![bulk("DEL"), bulk("k")])));
    let w2 = frame(&["DEL", "k"]).len() as u64;
    assert_eq!(slaves.frames_for(i).len(), 2);
    slaves.note_getack_sent();
    assert_eq!(slaves.master_offset(), w + 37 + w2);
    assert!(!slaves.get_new_client_cmd(Value::Array(vec![bulk("GET"), bulk("k")])));
}

#[test]
fn backlog_fields_of_info() {
    let config = Config::new();
    assert_eq!(config.get_key_info_of_replication(b"repl_backlog_active"), Value::SimpleString(b("0")));
    assert_eq!(config.get_key_info_of_replication(b"repl_backlog_first_byte_offset"), Value::Integer(0));
    assert_eq!(config.get_key_info_of_replication(b"repl_backlog_histlen"), Value::Integer(0));
    assert_eq!(config.get_key_info_of_replication(b"nope"), Value::BulkString(None));
}

#[test]
fn snapshot_reports_whether_it_read_whole() {
    let mut file = b"REDIS0011".to_vec();
    file.extend_from_slice(&[0xFE, 0, 0xFB, 1, 0, 0x00, 1, b'a', 1, b'x']);
    let mut whole = file.clone();
    whole.push(0xFF);
    assert!(parse_rdb(&whole, 0).complete);
    let mut cut = file.clone();
    cut.extend_from_slice(&[0x00, 5, b'b']);
    let snap = parse_rdb(&cut, 0);
    assert!(!snap.complete);
    assert_eq!(snap.entries, vec![(b("a"), bulk("x"), None)]);
    let mut config = Config::new();
    assert!(!config.load_rdb(&cut, 0));
    let mut with_aux = b"REDIS0011".to_vec();
    with_aux.extend_from_slice(&[0xFA, 1, b'v', 1, b'7', 0xFF]);
    assert!(config.load_rdb(&with_aux, 0));
    assert_eq!(config.metadata, vec![(b("v"), bulk("7"))]);
    assert_eq!(config.get(b"a", 0), bulk("x"));
}
