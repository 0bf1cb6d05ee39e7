//! The replication section of INFO and the replication parameters.
use vstd::prelude::*;
use crate::decimal::{nat_text, push_nat};
use crate::resp::{Value, Resp, copy_bytes, push_bytes};
use crate::text::{ascii, ascii_bytes};

verus! {

pub open spec fn nl() -> Seq<u8> {
    seq![10u8]
}

/// The INFO replication text: one `field:value` line per field.
pub open spec fn info_text(role: Seq<u8>, connected: u64, replid: Seq<u8>, offset: u64) -> Seq<u8> {
    ascii("role:"@) + role + nl() + ascii("connected_slaves:"@) + nat_text(connected as nat) + nl()
        + ascii("master_replid:"@) + replid + nl() + ascii("master_repl_offset:"@) + nat_text(
        offset as nat,
    ) + nl() + ascii("second_repl_offset:-1"@) + nl() + ascii("repl_backlog_active:0"@) + nl()
        + ascii("repl_backlog_size:1048576"@) + nl() + ascii("repl_backlog_first_byte_offset:0"@)
        + nl() + ascii("repl_backlog_histlen:0"@) + nl()
}

/// The replication identity of this server.
pub struct RCliInfo {
    /// `master` or `slave`.
    pub role: Vec<u8>,
    /// The replication ID, 40 hexadecimal characters.
    pub master_replid: Vec<u8>,
}

pub open spec fn initial_replid() -> Seq<u8> {
    ascii("8371b4fb1155b71f4a04d3e1bc3e18c4a990aeeb"@)
}

fn push_line_start(out: &mut Vec<u8>, field: &str)
    requires
        field.is_ascii(),
    ensures
        final(out)@ == old(out)@ + ascii(field@),
{
    let f = ascii_bytes(field);
    push_bytes(out, f.as_slice());
}

/// The `i64` nearest to `n`.
pub open spec fn clamp_i64(n: u64) -> i64 {
    if n <= i64::MAX as u64 {
        n as i64
    } else {
        i64::MAX
    }
}

/// The value of one INFO field, or the null bulk string for an unknown name.
pub open spec fn param_of(role: Seq<u8>, replid: Seq<u8>, connected: u64, offset: u64, name: Seq<u8>) -> Resp {
    if name == ascii("role"@) {
        Resp::Simple(role)
    } else if name == ascii("connected_slaves"@) {
        Resp::Int(clamp_i64(connected) as int)
    } else if name == ascii("master_replid"@) {
        Resp::Simple(replid)
    } else if name == ascii("master_repl_offset"@) {
        Resp::Int(clamp_i64(offset) as int)
    } else if name == ascii("second_repl_offset"@) {
        Resp::Int(-1)
    } else if name == ascii("repl_backlog_active"@) {
        Resp::Simple(ascii("0"@))
    } else if name == ascii("repl_backlog_size"@) {
        Resp::Int(1048576)
    } else if name == ascii("repl_backlog_first_byte_offset"@) {
        Resp::Int(0)
    } else if name == ascii("repl_backlog_histlen"@) {
        Resp::Int(0)
    } else {
        Resp::Bulk(None)
    }
}

impl RCliInfo {
    /// A master with the built-in replication ID.
    pub fn new() -> (r: RCliInfo)
        ensures
            r.role@ == ascii("master"@),
            r.master_replid@ == initial_replid(),
    {
        proof {
            reveal_strlit("master");
            reveal_strlit("8371b4fb1155b71f4a04d3e1bc3e18c4a990aeeb");
        }
        RCliInfo {
            role: ascii_bytes("master"),
            master_replid: ascii_bytes("8371b4fb1155b71f4a04d3e1bc3e18c4a990aeeb"),
        }
    }

    /// Sets the role.
    pub fn set_role(&mut self, role: Vec<u8>)
        ensures
            final(self).role@ == role@,
            final(self).master_replid@ == old(self).master_replid@,
    {
        self.role = role;
    }

    /// The INFO replication text, given the number of connected replicas and
    /// the master offset.
    pub fn get_replication_info(&self, connected: u64, offset: u64) -> (r: Vec<u8>)
        ensures
            r@ == info_text(self.role@, connected, self.master_replid@, offset),
    {
        proof {
            reveal_strlit("role:");
            reveal_strlit("connected_slaves:");
            reveal_strlit("master_replid:");
            reveal_strlit("master_repl_offset:");
            reveal_strlit("second_repl_offset:-1");
            reveal_strlit("repl_backlog_active:0");
            reveal_strlit("repl_backlog_size:1048576");
            reveal_strlit("repl_backlog_first_byte_offset:0");
            reveal_strlit("repl_backlog_histlen:0");
        }
        let mut out: Vec<u8> = Vec::new();
        push_line_start(&mut out, "role:");
        push_bytes(&mut out, self.role.as_slice());
        out.push(10u8);
        push_line_start(&mut out, "connected_slaves:");
        push_nat(&mut out, connected);
        out.push(10u8);
        push_line_start(&mut out, "master_replid:");
        push_bytes(&mut out, self.master_replid.as_slice());
        out.push(10u8);
        push_line_start(&mut out, "master_repl_offset:");
        push_nat(&mut out, offset);
        out.push(10u8);
        push_line_start(&mut out, "second_repl_offset:-1");
        out.push(10u8);
        push_line_start(&mut out, "repl_backlog_active:0");
        out.push(10u8);
        push_line_start(&mut out, "repl_backlog_size:1048576");
        out.push(10u8);
        push_line_start(&mut out, "repl_backlog_first_byte_offset:0");
        out.push(10u8);
        push_line_start(&mut out, "repl_backlog_histlen:0");
        out.push(10u8);
        proof {
            assert(out@ =~= info_text(self.role@, connected, self.master_replid@, offset));
        }
        out
    }

    /// The value of one INFO replication field.
    pub fn get_param(&self, name: &[u8], connected: u64, offset: u64) -> (r: Value)
        ensures
            r@ == param_of(self.role@, self.master_replid@, connected, offset, name@),
    {
        proof {
            reveal_strlit("role");
            reveal_strlit("connected_slaves");
            reveal_strlit("master_replid");
            reveal_strlit("master_repl_offset");
            reveal_strlit("second_repl_offset");
            reveal_strlit("repl_backlog_size");
            reveal_strlit("repl_backlog_active");
            reveal_strlit("repl_backlog_first_byte_offset");
            reveal_strlit("repl_backlog_histlen");
            reveal_strlit("0");
        }
        let c = if connected <= 9223372036854775807u64 { connected as i64 } else { i64::MAX };
        let o = if offset <= 9223372036854775807u64 { offset as i64 } else { i64::MAX };
        if crate::assoc::bytes_eq(name, ascii_bytes("role").as_slice()) {
            Value::SimpleString(copy_bytes(self.role.as_slice()))
        } else if crate::assoc::bytes_eq(name, ascii_bytes("connected_slaves").as_slice()) {
            Value::Integer(c)
        } else if crate::assoc::bytes_eq(name, ascii_bytes("master_replid").as_slice()) {
            Value::SimpleString(copy_bytes(self.master_replid.as_slice()))
        } else if crate::assoc::bytes_eq(name, ascii_bytes("master_repl_offset").as_slice()) {
            Value::Integer(o)
        } else if crate::assoc::bytes_eq(name, ascii_bytes("second_repl_offset").as_slice()) {
            Value::Integer(-1)
        } else if crate::assoc::bytes_eq(name, ascii_bytes("repl_backlog_active").as_slice()) {
            Value::SimpleString(ascii_bytes("0"))
        } else if crate::assoc::bytes_eq(name, ascii_bytes("repl_backlog_size").as_slice()) {
            Value::Integer(1048576)
        } else if crate::assoc::bytes_eq(name, ascii_bytes("repl_backlog_first_byte_offset").as_slice()) {
            Value::Integer(0)
        } else if crate::assoc::bytes_eq(name, ascii_bytes("repl_backlog_histlen").as_slice()) {
            Value::Integer(0)
        } else {
            Value::BulkString(None)
        }
    }
}

} // verus!
