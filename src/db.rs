//! The command dispatcher.
use vstd::prelude::*;
use crate::commands::command_post;
use crate::resp::{Value, copy_bytes};
use crate::server::{Config, Outcome, arg_views, is_command, simple_value, arity_value};
use crate::text::ascii_bytes;

verus! {

/// Runs commands against a [`Config`].
#[derive(Clone, Copy, Debug, PartialEq, Eq, Structural)]
pub struct RedisDb {}

impl RedisDb {
    pub fn new() -> (r: RedisDb) {
        RedisDb {  }
    }

    /// Runs command `command` with arguments `args` at wall-clock millisecond
    /// `now` for the client at `peer` (whose IP is `peer_ip`). Names are
    /// matched ignoring ASCII case.
    pub fn handle_command(
        &mut self,
        command: &[u8],
        args: &Vec<Vec<u8>>,
        config: &mut Config,
        now: u64,
        peer: &[u8],
        peer_ip: &[u8],
    ) -> (r: Outcome)
        requires
            old(config).wf(),
        ensures
            final(config).wf(),
            command_post(old(config).state(), command@, arg_views(args@), now, peer@, peer_ip@, r@, final(config).state()),
    {
        proof {
            reveal_strlit("ping");
            reveal_strlit("echo");
            reveal_strlit("set");
            reveal_strlit("get");
            reveal_strlit("del");
            reveal_strlit("exists");
            reveal_strlit("incr");
            reveal_strlit("decr");
            reveal_strlit("type");
            reveal_strlit("keys");
            reveal_strlit("config");
            reveal_strlit("info");
            reveal_strlit("replconf");
            reveal_strlit("psync");
            reveal_strlit("xadd");
            reveal_strlit("xrange");
            reveal_strlit("xread");
            reveal_strlit("wait");
            reveal_strlit("PONG");
            reveal_strlit("ECHO");
            reveal_strlit("INCR");
            reveal_strlit("DECR");
            reveal_strlit("Unknown command: ");
        }
        if is_command(command, "ping") {
            Outcome::Reply(simple_value("PONG"))
        } else if is_command(command, "echo") {
            if args.len() == 1 {
                Outcome::Reply(Value::BulkString(Some(copy_bytes(args[0].as_slice()))))
            } else {
                Outcome::Reply(arity_value("ECHO"))
            }
        } else if is_command(command, "set") {
            config.cmd_set(args, now)
        } else if is_command(command, "get") {
            config.cmd_get(args, now)
        } else if is_command(command, "del") {
            config.cmd_del(args, now)
        } else if is_command(command, "exists") {
            config.cmd_exists(args, now)
        } else if is_command(command, "incr") {
            config.cmd_incr(args, 1, "INCR", now)
        } else if is_command(command, "decr") {
            config.cmd_incr(args, -1, "DECR", now)
        } else if is_command(command, "type") {
            config.cmd_type(args, now)
        } else if is_command(command, "keys") {
            config.cmd_keys(args, now)
        } else if is_command(command, "config") {
            config.cmd_config(args)
        } else if is_command(command, "info") {
            config.cmd_info(args)
        } else if is_command(command, "replconf") {
            config.cmd_replconf(args, peer, peer_ip)
        } else if is_command(command, "psync") {
            config.cmd_psync(args)
        } else if is_command(command, "xadd") {
            config.cmd_xadd(args, now)
        } else if is_command(command, "xrange") {
            config.cmd_xrange(args)
        } else if is_command(command, "xread") {
            config.cmd_xread(args)
        } else if is_command(command, "wait") {
            config.cmd_wait(args)
        } else {
            let mut m = ascii_bytes("Unknown command: ");
            crate::resp::push_bytes(&mut m, command);
            Outcome::Reply(Value::Error(m))
        }
    }
}

} // verus!
