# mini_redis

A Redis-protocol (RESP2) key-value store, with the logic written in Verus and
proved against its specifications.

- `src/protocol`: RESP2 values, `encode` and `parse`; `laws.rs` proves that
  parsing undoes encoding and that every parser answer but "incomplete" is final.
- `src/command`: typed commands read from RESP arrays (`parse_command`).
- `src/store`: the keyspace with expiry (`Store::apply` runs a command at a
  given time), glob matching for `KEYS`, and the laws that tie commands together.
- `src/persistence`: the durable record of a mutating command (`WalRecord`)
  and the length-prefixed framing of the write-ahead log and replication stream;
  replaying the records of a run of commands, each at the time its command
  ran, gives the keyspace the run gave, for every run without a conditional
  `SET` (`NX`/`XX`), whose record replays as an unconditional one. A replay
  stops at the first record that does not decode (`complete_records`).
- `src/conn`: what a connection does with the bytes it has buffered; each
  step answers the first waiting request, however reads cut the stream.
- `src/buffers.rs`, `src/text.rs`: the specifications assumed of the `bytes`
  crate and of the few `std` string functions that are called.
- `app/`: the `mini-redis` binary — sockets, files, the clock, `bincode`,
  `clap`, `tokio` and logging around the library.
