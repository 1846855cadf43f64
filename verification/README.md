# parser

A binary message protocol and its streaming parser, verified with Verus.

A message is framed as the start sequence `FF 00`, then address, destination, data
length, data and checksum, with every `FF` byte doubled. The checksum is the sum of
the other logical bytes modulo 256.

- `src/protocol.rs` — messages, checksum, builder and wire format, with a model
  (`MessageModel`, `encode`) that the contracts speak of.
- `src/parse.rs` — parse results, the `Parser` trait, and the byte-at-a-time model of
  the stream parser (`step`, `run_at`, `feed_spec`).
- `src/state_machine.rs` — `StateMachineParser`, whose `feed` is proved to return
  exactly what the model says, across any split of the stream into feeds.
- `src/laws.rs` — round trip, back-to-back messages, gaps, split and chunked feeds, a
  message cut after its start sequence, frames fed one per feed, where `Partial` appears,
  interrupted messages, and what an injected checksum error yields.
- `src/generator.rs`, `src/stats.rs` — the decisions of the traffic generator and the
  per-client counters of the server.
- `app/` — the server and the generator client (threads, sockets, logging, arguments).
