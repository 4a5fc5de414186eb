# crossbank

Local, on-device key/value storage. A **bank** holds named **lockers**; a locker
holds typed values under byte-string keys. An eager `Locker` keeps everything in
memory and reads without failing; a `LazyLocker` keeps its keys in memory and
fetches values on demand. Values are sealed through a filter chain (LZ4 and
CRC32 unless told otherwise), large ones are split into chunks, and a locker may
have a byte budget it stays under by shedding what was used least recently.

The library is written in Verus: but for the few calls that reach outside it,
listed below, what a function does is a contract that is proved, and the
promises that span several calls are public proof functions.

## Layout

| | |
|---|---|
| `src/backend/` | what a store is (`api`), the in-memory one (`memory`), reading page by page (`pages`, `gather`) |
| `src/codec/` | envelopes and filter chains (`api`), LZ4 and CRC32 (`filters`), values (`value`) |
| `src/key.rs`, `src/meta.rs` | how keys and bookkeeping are spelt in a store |
| `src/locker/` | lockers: `lazy`, `eager`, transactions and batches, chunks, the byte budget (`lru`, `queue`), streams (`io`) |
| `src/locker/*_laws.rs` | what holds from one call to the next |
| `src/bank.rs`, `src/maintenance.rs`, `src/handle.rs` | the bank: names, ids, upkeep, requests for byte strings |
| `src/watch.rs`, `src/coherence.rs` | telling subscribers, and other tabs |
| `src/fault.rs`, `src/harness.rs` | planned failures, and what a backend says of itself |
| `app/` | files (`redb`), browsers, `serde`, threads |
| `tests/` | what a caller sees |

## Reading the contracts

A `Backend` is modelled by its `store()`: three maps from byte strings to byte
strings. `answers()` says that no call is going to fail; contracts promise
success under it and say what holds either way without it. A locker's effect on
the store is a list of `Change`s, and what a key reads as is `readable` of its
record. `locker/read_laws.rs` says what is got back of what was put,
`locker/tidy_laws.rs` why no two values ever share their chunks,
`locker/chunk_laws.rs` why none is left behind, and `locker/lru_laws.rs` what a
byte budget sheds.

Lockers are used with the `Shared` part of the bank they came from:

```rust
let mut bank = Bank::in_memory()?;
let mut settings = bank.locker::<String>("settings")?;
settings.put(&mut bank.shared, "theme", "dark".to_string())?;
assert_eq!(settings.get("theme").as_deref(), Some(&"dark".to_string()));
```

A bank does not own the lockers it opened, so `Bank::flush_all` and
`Bank::close` are handed the ones that are open:

```rust
bank.flush_all(vec![&mut settings.res])?;
```

## What is taken on trust

The calls into `crc32fast`, `lz4_flex`, `postcard` and `futures`, and a few of
the standard library: `str::from_utf8` and its error, `{:?}` of text, and
`Arc::clone`. Each is marked and says what it claims.
