# codecrafters_redis

A small Redis-like server whose logic is a Verus-verified library.

- `src/text.rs`: decimal numbers written and read as Rust's `Display` and
  `FromStr` do, substrings at character boundaries, `-` splitting.
- `src/resp.rs`: the RESP wire format (`parse_resp` writes a value,
  `parse_message` reads a client's message), with the laws of what reading
  gives back of writing.
- `src/redis_command.rs`: the commands, read from the strings of a RESP array
  (`array_to_command`, `message_to_command`), and the law that a command sent
  as an array of bulk strings is read back as itself.
- `src/list.rs`, `src/str_map.rs`, `src/redis_object.rs`, `src/redis_db.rs`:
  the store's values and maps.
- `src/redis_server.rs`: each command as a change of the store and the
  replies it sends, stated over `ServerView` and proved for `execute`.
- `src/laws.rs`: properties across commands (a `GET` after a `SET`, ranges
  after pushes, waking blocked `BLPOP`s first come first served, stream ids
  that grow over any run of `XADD`s, an array's bytes on the wire).
- `src/radix_tree.rs`: the stream index node.
- `app/main.rs`: the TCP loop, the clock and the `BLPOP` timeout in seconds.
