# quic_relay

A relay transport over QUIC whose decisions are verified with Verus.

- `src/` is the library: the framing of relay frames on a QUIC stream, the life
  of the relay server and of each of its connections, and the round-trip
  benchmark. It reads no socket and no clock. Each step takes what has happened
  and returns what to do next.
- `app/` is ordinary Rust around it: the sockets, streams, tasks and clocks. The
  handshake, the access rules, the registry of clients and the relay client,
  which all transports of a relay share, are handed in through two traits.
- `tests/` runs the library on concrete values.

The framing rests on the buffers of the `bytes` crate, and the benchmark on the
sort of the standard library. What they are trusted to do is written down in
`src/buffer.rs` and at `sort_ascending` in `src/relay_bench.rs`.
