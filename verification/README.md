# mini_lsm_starter

The verified core of a small LSM-tree key-value store, written in Verus.

`src/` is the library. Its functions carry contracts that Verus proves,
except for the thin wrappers around outside crates and the standard library,
whose contracts are trusted, and what rests on the system clock
(`key::current_timestamp`), of which nothing is stated:

- `key`, `key_order`: keys with timestamps, record type and expiry, and
  their order (user key ascending, newest version first).
- `block`, `wal`: the byte layouts of data blocks and of write-ahead-log
  batches, with encode/decode round trips and log replay proved.
- `compression`: the block compression controllers (Snappy, LZ4, gzip)
  over their crates, with the decompress-after-compress round trip (for LZ4
  only for inputs under 4 GiB, whose size it stores in 32 bits).
- `compact`: compaction tasks and the tiered controller; which entries a
  compaction keeps (`compact::filter`); how a compaction is split into
  sub-compactions over key ranges (`compact::subcompaction`); the levels a
  running task reserves; forced full compaction of level 0, with the ids of
  the tables held.
- `iterators`: a storage-iterator interface, the merge of several iterators
  (what each move does to every source) and the range limiter over a
  half-open key range.
- `command`: the grammar of the interactive shell.
- `network`, `connection_pool`: the decisions of the network server — frame
  sizes, scan limits, per-client transactions, the connection registry and
  token-bucket rate limiting — with times as plain nanosecond counts.
- `error`, `text`: error types with their messages, and text helpers.

`app/` is the plain Rust around it: files, sockets, clocks, async locking,
the command line and error display. `tests/` exercises the library through
its public API.
